//! The compositor: the table of widgets, the loaded fonts, the pixels of the
//! display, and the rectangle of pixels that a snapshot changed.
//!
//! The renderer talks to no device and sets no glyph. Its caller initialises
//! the device and hands in what came of it, has each text set by a font and
//! hands in the raster, and sends the pixels of the changed rectangle to the
//! device.

use crate::config::{GraphWidget, MeterConfig, TextWidget, WidgetLayout};
use crate::fonts::{distinct, FontCache, FontError};
use crate::framebuffer::{
    cut_out, lemma_index, lies_in, overlaid, painted, restored, Framebuffer, Image, Raster,
};
use crate::geometry::{hull_of, Rect};
use crate::pixel::Rgba;
use crate::sample::{formatted, Measurements, Sample};
use vstd::prelude::*;

verus! {

broadcast use vstd::std_specs::hash::group_hash_axioms;

/// Why the device did not come up.
#[derive(Clone, Copy, Debug, PartialEq, Eq, Structural)]
pub enum DeviceError {
    /// No device was found.
    NotFound,
    /// The device could not be initialised, switched on or dimmed.
    InitFailed,
}

/// Why the renderer could not be made or a widget could not be drawn. The
/// first three end the renderer; the others concern one widget of one
/// snapshot.
#[derive(Clone, Copy, Debug, PartialEq, Eq, Structural)]
pub enum RenderError {
    /// The device did not come up.
    Device(DeviceError),
    /// The device reports a size with more pixels than can be held.
    DisplayTooLarge,
    /// The background picture has not as many pixels as its size says.
    BadBackground,
    /// No widget is laid out for the meter.
    UnknownWidget,
    /// The font of the widget is not loaded.
    FontNotLoaded,
    /// The widget shows no text.
    NotText,
    /// The raster has not one coverage value for each pixel of its rectangle.
    BadRaster,
}

impl RenderError {
    /// The error ends the renderer.
    pub open spec fn fatal(self) -> bool {
        self is Device || self is DisplayTooLarge || self is BadBackground
    }

    /// Whether the error ends the renderer.
    pub fn is_fatal(&self) -> (fatal: bool)
        ensures
            fatal == self.fatal(),
    {
        match self {
            RenderError::Device(_) => true,
            RenderError::DisplayTooLarge => true,
            RenderError::BadBackground => true,
            _ => false,
        }
    }
}

/// A widget of the table: the meter it belongs to, how it is laid out, and the
/// rectangle of the display that its last drawing occupies.
pub struct Widget {
    pub id: u64,
    pub layout: WidgetLayout,
    pub footprint: Rect,
}

/// A text for a font to set: which widget it is for, the slot of the font,
/// the size and colour, the top left corner, and the characters.
#[derive(Debug, PartialEq, Eq)]
pub struct TextRequest {
    pub id: u64,
    pub font: usize,
    pub font_size: u32,
    pub color: Rgba,
    pub x: usize,
    pub y: usize,
    pub text: String,
}

impl TextRequest {
    /// The request is for the text of `value` as the widget `text` of the
    /// meter `id` shows it, and names the slot of the widget's font among
    /// `fonts`.
    pub open spec fn asks(
        self,
        id: u64,
        text: TextWidget,
        fonts: Seq<Seq<char>>,
        value: Sample,
    ) -> bool {
        &&& self.id == id
        &&& self.font < fonts.len()
        &&& fonts[self.font as int] == text.font@
        &&& self.font_size == text.font_size
        &&& self.color == text.color
        &&& self.x == text.x
        &&& self.y == text.y
        &&& self.text@ == formatted(
            value.millis as int,
            text.field_width as nat,
            text.precision as nat,
        )
    }
}

/// What is to be done for one snapshot: the texts to have set, in the order
/// of the widgets, and the widgets that cannot be drawn, each with the
/// reason.
pub struct Plan {
    pub requests: Vec<TextRequest>,
    pub skipped: Vec<(u64, RenderError)>,
}

/// The text of the widget can be set: the snapshot has a value for the
/// widget's meter and the widget's font is loaded.
pub open spec fn settable(widget: Widget, fonts: Seq<Seq<char>>, snapshot: Map<u64, Sample>) -> bool {
    snapshot.dom().contains(widget.id) && (widget.layout matches WidgetLayout::Text(text)
        && fonts.contains(text.font@))
}

/// The snapshot has a value for the widget's meter, but the font of its text
/// is not loaded.
pub open spec fn fontless(widget: Widget, fonts: Seq<Seq<char>>, snapshot: Map<u64, Sample>) -> bool {
    snapshot.dom().contains(widget.id) && (widget.layout matches WidgetLayout::Text(text)
        && !fonts.contains(text.font@))
}

/// The places in the table of the widgets whose text can be set, in the
/// order of the table.
pub open spec fn wanted(widgets: Seq<Widget>, fonts: Seq<Seq<char>>, snapshot: Map<u64, Sample>) -> Seq<
    int,
>
    decreases widgets.len(),
{
    if widgets.len() == 0 {
        Seq::empty()
    } else {
        let front = wanted(widgets.drop_last(), fonts, snapshot);
        if settable(widgets.last(), fonts, snapshot) {
            front.push(widgets.len() - 1)
        } else {
            front
        }
    }
}

/// The widgets that have a value in the snapshot and cannot be drawn, each
/// with the reason, in the order of the table.
pub open spec fn passed_over(
    widgets: Seq<Widget>,
    fonts: Seq<Seq<char>>,
    snapshot: Map<u64, Sample>,
) -> Seq<(u64, RenderError)>
    decreases widgets.len(),
{
    if widgets.len() == 0 {
        Seq::empty()
    } else {
        let front = passed_over(widgets.drop_last(), fonts, snapshot);
        if fontless(widgets.last(), fonts, snapshot) {
            front.push((widgets.last().id, RenderError::FontNotLoaded))
        } else {
            front
        }
    }
}

/// The request is for the text of the widget with the value that the
/// snapshot has for the widget's meter.
pub open spec fn serves(
    request: TextRequest,
    widget: Widget,
    fonts: Seq<Seq<char>>,
    snapshot: Map<u64, Sample>,
) -> bool {
    widget.layout matches WidgetLayout::Text(text) && request.asks(
        widget.id,
        text,
        fonts,
        snapshot[widget.id],
    )
}

/// `wanted` names places of the table, in rising order, and exactly those of
/// the widgets whose text can be set.
pub proof fn lemma_wanted(widgets: Seq<Widget>, fonts: Seq<Seq<char>>, snapshot: Map<u64, Sample>)
    ensures
        forall|k: int|
            0 <= k < wanted(widgets, fonts, snapshot).len() ==> 0 <= (#[trigger] wanted(
                widgets,
                fonts,
                snapshot,
            )[k]) < widgets.len() && settable(
                widgets[wanted(widgets, fonts, snapshot)[k]],
                fonts,
                snapshot,
            ),
        forall|k: int, m: int|
            0 <= k < m < wanted(widgets, fonts, snapshot).len() ==> wanted(
                widgets,
                fonts,
                snapshot,
            )[k] < wanted(widgets, fonts, snapshot)[m],
        forall|j: int|
            0 <= j < widgets.len() && settable(#[trigger] widgets[j], fonts, snapshot) ==> wanted(
                widgets,
                fonts,
                snapshot,
            ).contains(j),
    decreases widgets.len(),
{
    if widgets.len() > 0 {
        let rest = widgets.drop_last();
        let front = wanted(rest, fonts, snapshot);
        let all = wanted(widgets, fonts, snapshot);
        lemma_wanted(rest, fonts, snapshot);
        assert forall|k: int| 0 <= k < all.len() implies 0 <= (#[trigger] all[k]) < widgets.len()
            && settable(widgets[all[k]], fonts, snapshot) by {
            if k < front.len() {
                assert(all[k] == front[k]);
                assert(rest[front[k]] == widgets[front[k]]);
            }
        }
        assert forall|k: int, m: int| 0 <= k < m < all.len() implies all[k] < all[m] by {
            assert(all[k] == front[k]);
            if m < front.len() {
                assert(all[m] == front[m]);
            }
        }
        assert forall|j: int|
            0 <= j < widgets.len() && settable(
                #[trigger] widgets[j],
                fonts,
                snapshot,
            ) implies all.contains(j) by {
            if j < rest.len() {
                assert(rest[j] == widgets[j]);
                assert(front.contains(j));
                let k = choose|k: int| 0 <= k < front.len() && front[k] == j;
                assert(all[k] == j);
            } else {
                assert(all[all.len() - 1] == j);
            }
        }
    }
}

/// A widget is laid out for `id`.
pub open spec fn has_widget(widgets: Seq<Widget>, id: u64) -> bool {
    exists|i: int| 0 <= i < widgets.len() && (#[trigger] widgets[i]).id == id
}

/// Where the widget of `id` stands in the table.
pub open spec fn widget_slot(widgets: Seq<Widget>, id: u64) -> int {
    choose|i: int| 0 <= i < widgets.len() && (#[trigger] widgets[i]).id == id
}

/// No two widgets belong to the same meter.
pub open spec fn one_widget_each(widgets: Seq<Widget>) -> bool {
    forall|i: int, j: int|
        0 <= i < widgets.len() && 0 <= j < widgets.len() && i != j ==> (#[trigger] widgets[i]).id
            != (#[trigger] widgets[j]).id
}

/// The table of widgets for `configs`: one widget for each meter, in the order
/// in which the meters first occur, laid out as the meter's last entry says,
/// and not drawn yet.
pub open spec fn laid_out(configs: Seq<MeterConfig>) -> Seq<Widget>
    decreases configs.len(),
{
    if configs.len() == 0 {
        Seq::empty()
    } else {
        let front = laid_out(configs.drop_last());
        let widget = Widget {
            id: configs.last().id,
            layout: configs.last().layout,
            footprint: Rect::nothing(),
        };
        if has_widget(front, widget.id) {
            front.update(widget_slot(front, widget.id), widget)
        } else {
            front.push(widget)
        }
    }
}

/// What a renderer holds.
pub struct Scene {
    pub widgets: Seq<Widget>,
    /// Names of the loaded fonts, by slot.
    pub fonts: Seq<Seq<char>>,
    pub columns: nat,
    pub rows: nat,
    /// The picture as it is to be shown, row by row.
    pub live: Seq<Rgba>,
    /// The background, row by row.
    pub base: Seq<Rgba>,
    /// The bounding box of what was drawn since the snapshot began.
    pub dirty: Rect,
}

impl Scene {
    /// The rectangle of the whole display.
    pub open spec fn bounds(self) -> Rect {
        Rect { left: 0, top: 0, right: self.columns as usize, bottom: self.rows as usize }
    }

    /// Every meter has one widget at most, no font is loaded twice, and
    /// picture and background have one pixel for each cell of the display.
    pub open spec fn wf(self) -> bool {
        &&& one_widget_each(self.widgets)
        &&& distinct(self.fonts)
        &&& self.columns <= usize::MAX
        &&& self.rows <= usize::MAX
        &&& self.live.len() == self.columns * self.rows
        &&& self.base.len() == self.columns * self.rows
    }

    /// The widget of `id` shows text.
    pub open spec fn shows_text(self, id: u64) -> bool {
        has_widget(self.widgets, id) && self.widgets[widget_slot(self.widgets, id)].layout is Text
    }

    /// The colour of the text of the widget of `id`.
    pub open spec fn ink(self, id: u64) -> Rgba {
        match self.widgets[widget_slot(self.widgets, id)].layout {
            WidgetLayout::Text(text) => text.color,
            WidgetLayout::Graph(_) => Rgba::blank(),
        }
    }

    /// The raster is drawn for the widget of `id`: the widget shows text and
    /// the raster is valid.
    pub open spec fn draws(self, id: u64, raster: Raster) -> bool {
        self.shows_text(id) && raster.valid()
    }

    /// The scene after `raster` was drawn for the widget of `id`: the pixels
    /// of the widget's last drawing are taken back from the background, the
    /// raster is laid on in the widget's colour, the part of its rectangle
    /// that lies on the display becomes the widget's footprint and joins the
    /// changed rectangle. A raster that is not drawn changes nothing.
    pub open spec fn drawn(self, id: u64, raster: Raster) -> Scene {
        if self.draws(id, raster) {
            let k = widget_slot(self.widgets, id);
            let footprint = raster.rect.common(self.bounds());
            Scene {
                widgets: self.widgets.update(
                    k,
                    Widget { id: self.widgets[k].id, layout: self.widgets[k].layout, footprint },
                ),
                fonts: self.fonts,
                columns: self.columns,
                rows: self.rows,
                live: painted(
                    restored(self.live, self.base, self.columns as int, self.widgets[k].footprint),
                    self.columns as int,
                    raster,
                    self.ink(id),
                ),
                base: self.base,
                dirty: self.dirty.joined(footprint),
            }
        } else {
            self
        }
    }

    /// The scene at the start of a snapshot: nothing has changed yet.
    pub open spec fn begun(self) -> Scene {
        Scene {
            widgets: self.widgets,
            fonts: self.fonts,
            columns: self.columns,
            rows: self.rows,
            live: self.live,
            base: self.base,
            dirty: Rect::nothing(),
        }
    }

    /// The scene after the rasters of one snapshot were drawn in turn.
    pub open spec fn composed(self, rasters: Seq<(u64, Raster)>) -> Scene
        decreases rasters.len(),
    {
        if rasters.len() == 0 {
            self.begun()
        } else {
            self.composed(rasters.drop_last()).drawn(rasters.last().0, rasters.last().1)
        }
    }

    /// The rectangles on the display of the rasters of `rasters` that are
    /// drawn, in their order.
    pub open spec fn drawn_rects(self, rasters: Seq<(u64, Raster)>) -> Seq<Rect>
        decreases rasters.len(),
    {
        if rasters.len() == 0 {
            Seq::empty()
        } else {
            let front = self.drawn_rects(rasters.drop_last());
            if self.draws(rasters.last().0, rasters.last().1) {
                front.push(rasters.last().1.rect.common(self.bounds()))
            } else {
                front
            }
        }
    }

    /// `answer` is what the renderer says to the value `value` of the meter
    /// `id`: an error where no widget is laid out for the meter or the font
    /// of its text is not loaded, nothing for a graph, and for a text the
    /// request to have it set.
    pub open spec fn answers(
        self,
        id: u64,
        value: Sample,
        answer: Result<Option<TextRequest>, RenderError>,
    ) -> bool {
        if !has_widget(self.widgets, id) {
            answer matches Err(error) && error == RenderError::UnknownWidget
        } else {
            match self.widgets[widget_slot(self.widgets, id)].layout {
                WidgetLayout::Graph(_) => answer matches Ok(request) && request is None,
                WidgetLayout::Text(text) => if self.fonts.contains(text.font@) {
                    answer matches Ok(Some(request)) && request.asks(id, text, self.fonts, value)
                } else {
                    answer matches Err(error) && error == RenderError::FontNotLoaded
                },
            }
        }
    }

    /// The scene after the picture was put behind everything.
    pub open spec fn backed(self, image: Image) -> Scene {
        Scene {
            widgets: self.widgets,
            fonts: self.fonts,
            columns: self.columns,
            rows: self.rows,
            live: overlaid(self.live, self.columns as int, image),
            base: overlaid(self.base, self.columns as int, image),
            dirty: self.dirty,
        }
    }
}

/// The widgets, the fonts and the pixels.
pub struct Renderer {
    widgets: Vec<Widget>,
    fonts: FontCache,
    fb: Framebuffer,
    dirty: Rect,
}

impl View for Renderer {
    type V = Scene;

    closed spec fn view(&self) -> Scene {
        Scene {
            widgets: self.widgets@,
            fonts: self.fonts.names(),
            columns: self.fb.columns(),
            rows: self.fb.rows(),
            live: self.fb.live_pixels(),
            base: self.fb.base_pixels(),
            dirty: self.dirty,
        }
    }
}

/// Where the widget of `id` stands in `widgets`.
fn find_widget(widgets: &Vec<Widget>, id: u64) -> (found: Option<usize>)
    requires
        one_widget_each(widgets@),
    ensures
        found.is_some() == has_widget(widgets@, id),
        found matches Some(i) ==> i < widgets.len() && widgets[i as int].id == id && widget_slot(
            widgets@,
            id,
        ) == i,
{
    let mut i: usize = 0;
    while i < widgets.len()
        invariant
            one_widget_each(widgets@),
            i <= widgets.len(),
            forall|j: int| 0 <= j < i ==> (#[trigger] widgets@[j]).id != id,
        decreases widgets.len() - i,
    {
        if widgets[i].id == id {
            proof {
                assert(widgets@[i as int].id == id);
                assert(has_widget(widgets@, id));
                let k = widget_slot(widgets@, id);
                assert(widgets@[k].id == id);
            }
            return Some(i);
        }
        i = i + 1;
    }
    None
}

/// Replacing a widget by one for the same meter, or adding one for a meter
/// that has none, keeps one widget for each meter.
proof fn lemma_table_step(widgets: Seq<Widget>, widget: Widget)
    requires
        one_widget_each(widgets),
    ensures
        has_widget(widgets, widget.id) ==> one_widget_each(
            widgets.update(widget_slot(widgets, widget.id), widget),
        ),
        !has_widget(widgets, widget.id) ==> one_widget_each(widgets.push(widget)),
{
    if has_widget(widgets, widget.id) {
        let k = widget_slot(widgets, widget.id);
        let next = widgets.update(k, widget);
        assert forall|i: int, j: int|
            0 <= i < next.len() && 0 <= j < next.len() && i != j implies (#[trigger] next[i]).id != (
        #[trigger] next[j]).id by {
            assert(next[i].id == widgets[i].id);
            assert(next[j].id == widgets[j].id);
        }
    } else {
        let next = widgets.push(widget);
        assert forall|i: int, j: int|
            0 <= i < next.len() && 0 <= j < next.len() && i != j implies (#[trigger] next[i]).id != (
        #[trigger] next[j]).id by {
            if i < widgets.len() {
                assert(next[i] == widgets[i]);
            }
            if j < widgets.len() {
                assert(next[j] == widgets[j]);
            }
        }
    }
}

/// The table for `configs` has one widget for each meter.
pub proof fn lemma_laid_out(configs: Seq<MeterConfig>)
    ensures
        one_widget_each(laid_out(configs)),
    decreases configs.len(),
{
    if configs.len() > 0 {
        lemma_laid_out(configs.drop_last());
        let widget = Widget {
            id: configs.last().id,
            layout: configs.last().layout,
            footprint: Rect::nothing(),
        };
        lemma_table_step(laid_out(configs.drop_last()), widget);
    }
}

impl Renderer {
    /// What the renderer holds is well formed.
    pub open spec fn wf(&self) -> bool {
        self@.wf()
    }

    /// The renderer for the configured widgets, with the fonts loaded so far
    /// and what came of initialising the device: its size in pixels, or the
    /// failure. The renderer is made exactly where the device came up and
    /// the pixels of its size can be held. Its picture and its background
    /// are blank and nothing is drawn.
    pub fn new(
        configs: &Vec<MeterConfig>,
        fonts: FontCache,
        device: Result<(usize, usize), DeviceError>,
    ) -> (made: Result<Renderer, RenderError>)
        requires
            fonts.wf(),
        ensures
            match device {
                Err(error) => made matches Err(e) && e == RenderError::Device(error),
                Ok((width, height)) => if width * height > usize::MAX {
                    made matches Err(e) && e == RenderError::DisplayTooLarge
                } else {
                    made matches Ok(r) && r.wf() && r@ == (Scene {
                        widgets: laid_out(configs@),
                        fonts: fonts.names(),
                        columns: width as nat,
                        rows: height as nat,
                        live: Seq::new((width * height) as nat, |i: int| Rgba::blank()),
                        base: Seq::new((width * height) as nat, |i: int| Rgba::blank()),
                        dirty: Rect::nothing(),
                    })
                },
            },
    {
        let (width, height) = match device {
            Ok(size) => size,
            Err(error) => {
                return Err(RenderError::Device(error));
            },
        };
        let fb = match Framebuffer::new(width, height) {
            Some(fb) => fb,
            None => {
                return Err(RenderError::DisplayTooLarge);
            },
        };
        let mut widgets: Vec<Widget> = Vec::new();
        let mut i: usize = 0;
        while i < configs.len()
            invariant
                i <= configs.len(),
                widgets@ == laid_out(configs@.subrange(0, i as int)),
                one_widget_each(widgets@),
            decreases configs.len() - i,
        {
            assert(configs@.subrange(0, i + 1).drop_last() =~= configs@.subrange(0, i as int));
            assert(configs@.subrange(0, i + 1).last() == configs@[i as int]);
            let widget = Widget {
                id: configs[i].id,
                layout: configs[i].layout.clone(),
                footprint: Rect::empty(),
            };
            proof {
                lemma_table_step(widgets@, widget);
            }
            match find_widget(&widgets, widget.id) {
                Some(k) => {
                    widgets.set(k, widget);
                },
                None => {
                    widgets.push(widget);
                },
            }
            i = i + 1;
        }
        assert(configs@.subrange(0, i as int) =~= configs@);
        Ok(Renderer { widgets, fonts, fb, dirty: Rect::empty() })
    }

    /// Takes in the outcome of loading the font `name`, as `FontCache::enter`
    /// does.
    pub fn load_font(&mut self, name: String, loaded: bool) -> (slot: Result<usize, FontError>)
        requires
            old(self).wf(),
        ensures
            final(self).wf(),
            final(self)@.widgets == old(self)@.widgets,
            final(self)@.columns == old(self)@.columns,
            final(self)@.rows == old(self)@.rows,
            final(self)@.live == old(self)@.live,
            final(self)@.base == old(self)@.base,
            final(self)@.dirty == old(self)@.dirty,
            old(self)@.fonts.contains(name@) ==> final(self)@.fonts == old(self)@.fonts && slot
                is Ok,
            !old(self)@.fonts.contains(name@) && loaded ==> final(self)@.fonts == old(self)@.fonts.push(name@) && slot == Ok::<usize, FontError>(
                old(self)@.fonts.len() as usize,
            ),
            !old(self)@.fonts.contains(name@) && !loaded ==> final(self)@.fonts == old(self)@.fonts
                && slot == Err::<usize, FontError>(FontError::Unreadable),
            slot matches Ok(i) ==> i < final(self)@.fonts.len() && final(self)@.fonts[i as int]
                == name@,
    {
        self.fonts.enter(name, loaded)
    }

    /// Puts the background picture behind everything: it is copied onto the
    /// background and onto the live picture. Returns the rectangle that the
    /// picture fills, which is to be sent to the device. A picture that is
    /// not valid is an error and changes nothing.
    pub fn start(&mut self, background: &Image) -> (filled: Result<Rect, RenderError>)
        requires
            old(self).wf(),
        ensures
            final(self).wf(),
            match filled {
                Ok(rect) => background.valid() && rect == background.area().common(
                    old(self)@.bounds(),
                ) && final(self)@ == old(self)@.backed(*background),
                Err(error) => !background.valid() && error == RenderError::BadBackground && final(self)@ == old(self)@,
            },
    {
        match self.fb.install(background) {
            Some(rect) => Ok(rect),
            None => Err(RenderError::BadBackground),
        }
    }

    /// Draws `raster`, the text of the widget of `id` as a font set it: takes
    /// the widget's last drawing back, lays the raster on in the widget's
    /// colour, and adds the raster's rectangle to the changed rectangle of
    /// the snapshot. Returns the part of that rectangle that lies on the
    /// display. Where the widget is unknown or shows no text, or the raster
    /// is not valid, nothing changes.
    pub fn draw_text(&mut self, id: u64, raster: &Raster) -> (shown: Result<Rect, RenderError>)
        requires
            old(self).wf(),
        ensures
            final(self).wf(),
            final(self)@ == old(self)@.drawn(id, *raster),
            match shown {
                Ok(rect) => old(self)@.draws(id, *raster) && rect == raster.rect.common(
                    old(self)@.bounds(),
                ),
                Err(error) => !old(self)@.draws(id, *raster) && error == (if !has_widget(
                    old(self)@.widgets,
                    id,
                ) {
                    RenderError::UnknownWidget
                } else if !old(self)@.shows_text(id) {
                    RenderError::NotText
                } else {
                    RenderError::BadRaster
                }),
            },
    {
        let k = match find_widget(&self.widgets, id) {
            Some(k) => k,
            None => {
                return Err(RenderError::UnknownWidget);
            },
        };
        let ink = match &self.widgets[k].layout {
            WidgetLayout::Text(text) => text.color,
            WidgetLayout::Graph(_) => {
                return Err(RenderError::NotText);
            },
        };
        if !raster.is_valid() {
            return Err(RenderError::BadRaster);
        }
        let last = self.widgets[k].footprint;
        self.fb.restore(last);
        let painted = self.fb.paint(raster, ink);
        assert(painted);
        let footprint = raster.rect.intersect(&self.fb.area());
        let layout = self.widgets[k].layout.clone();
        proof {
            lemma_table_step(
                self.widgets@,
                Widget { id, layout, footprint },
            );
        }
        self.widgets.set(k, Widget { id, layout, footprint });
        self.dirty = self.dirty.hull(&footprint);
        Ok(footprint)
    }

    /// Draws the rasters of one snapshot in turn, as `draw_text` does, and
    /// returns the rectangle that they changed: what is to be sent to the
    /// device. A raster that cannot be drawn is passed over.
    pub fn compose(&mut self, rasters: &Vec<(u64, Raster)>) -> (dirty: Rect)
        requires
            old(self).wf(),
        ensures
            final(self).wf(),
            final(self)@ == old(self)@.composed(rasters@),
            dirty == final(self)@.dirty,
    {
        self.dirty = Rect::empty();
        let mut i: usize = 0;
        while i < rasters.len()
            invariant
                i <= rasters.len(),
                self.wf(),
                self@ == old(self)@.composed(rasters@.subrange(0, i as int)),
            decreases rasters.len() - i,
        {
            assert(rasters@.subrange(0, i + 1).drop_last() =~= rasters@.subrange(0, i as int));
            assert(rasters@.subrange(0, i + 1).last() == rasters@[i as int]);
            let _ = self.draw_text(rasters[i].0, &rasters[i].1);
            i = i + 1;
        }
        assert(rasters@.subrange(0, i as int) =~= rasters@);
        self.dirty
    }

    /// The rectangle changed since the snapshot began.
    pub fn dirty(&self) -> (rect: Rect)
        ensures
            rect == self@.dirty,
    {
        self.dirty
    }

    /// The size of the display: columns, then rows.
    pub fn size(&self) -> (size: (usize, usize))
        ensures
            size.0 == self@.columns,
            size.1 == self@.rows,
    {
        (self.fb.width(), self.fb.height())
    }

    /// The live pixels of the part of `rect` that lies on the display, row by
    /// row: what is sent to the device for that rectangle.
    pub fn region(&self, rect: Rect) -> (pixels: Vec<Rgba>)
        requires
            self.wf(),
        ensures
            pixels@ == cut_out(self@.live, self@.columns as int, rect.common(self@.bounds())),
    {
        self.fb.region(rect)
    }

    /// The live pixel in column `x` of row `y`, if the display has it.
    pub fn pixel(&self, x: usize, y: usize) -> (p: Option<Rgba>)
        requires
            self.wf(),
        ensures
            p.is_some() <==> x < self@.columns && y < self@.rows,
            p matches Some(c) ==> c == self@.live[y * self@.columns + x],
    {
        self.fb.pixel(x, y)
    }
}

impl Renderer {
    /// The request to have the text of `value` set as the widget `text` of
    /// the meter `id` shows it, or `FontNotLoaded` where the font of the
    /// widget is not in the cache.
    pub fn render_text(&self, id: u64, text: &TextWidget, value: Sample) -> (request: Result<
        TextRequest,
        RenderError,
    >)
        ensures
            match request {
                Ok(request) => self@.fonts.contains(text.font@) && request.asks(
                    id,
                    *text,
                    self@.fonts,
                    value,
                ),
                Err(error) => !self@.fonts.contains(text.font@) && error
                    == RenderError::FontNotLoaded,
            },
    {
        match self.fonts.lookup(&text.font) {
            None => Err(RenderError::FontNotLoaded),
            Some(font) => Ok(
                TextRequest {
                    id,
                    font,
                    font_size: text.font_size,
                    color: text.color,
                    x: text.x,
                    y: text.y,
                    text: value.format(text.field_width, text.precision),
                },
            ),
        }
    }

    /// Takes the value of a graph. Nothing is drawn for a graph, and no value
    /// is an error.
    pub fn render_graph(_graph: &GraphWidget, _value: Sample) -> (done: Result<(), RenderError>)
        ensures
            done is Ok,
    {
        Ok(())
    }

    /// What is to be done for the value `value` of the meter `id`.
    pub fn render_widget(&self, id: u64, value: Sample) -> (answer: Result<
        Option<TextRequest>,
        RenderError,
    >)
        requires
            self.wf(),
        ensures
            self@.answers(id, value, answer),
    {
        let k = match find_widget(&self.widgets, id) {
            Some(k) => k,
            None => {
                return Err(RenderError::UnknownWidget);
            },
        };
        match &self.widgets[k].layout {
            WidgetLayout::Text(text) => {
                match self.render_text(id, text, value) {
                    Ok(request) => Ok(Some(request)),
                    Err(error) => Err(error),
                }
            },
            WidgetLayout::Graph(graph) => {
                match Renderer::render_graph(graph, value) {
                    Ok(_) => Ok(None),
                    Err(error) => Err(error),
                }
            },
        }
    }

    /// What is to be done for a snapshot. For every widget whose meter has a
    /// value in the snapshot, in the order of the table: a text whose font is
    /// loaded is requested, one whose font is not loaded is passed over with
    /// that reason, and a graph asks for nothing.
    pub fn render(&self, measurements: &Measurements) -> (plan: Plan)
        requires
            self.wf(),
        ensures
            plan.requests.len() == wanted(self@.widgets, self@.fonts, measurements@).len(),
            forall|k: int|
                0 <= k < plan.requests.len() ==> serves(
                    #[trigger] plan.requests[k],
                    self@.widgets[wanted(self@.widgets, self@.fonts, measurements@)[k]],
                    self@.fonts,
                    measurements@,
                ),
            plan.skipped@ == passed_over(self@.widgets, self@.fonts, measurements@),
    {
        let mut requests: Vec<TextRequest> = Vec::new();
        let mut skipped: Vec<(u64, RenderError)> = Vec::new();
        let ghost fonts = self@.fonts;
        let ghost snapshot = measurements@;
        let mut i: usize = 0;
        while i < self.widgets.len()
            invariant
                i <= self.widgets.len(),
                self.wf(),
                fonts == self@.fonts,
                snapshot == measurements@,
                requests.len() == wanted(self.widgets@.subrange(0, i as int), fonts, snapshot).len(),
                forall|k: int|
                    0 <= k < requests.len() ==> serves(
                        #[trigger] requests@[k],
                        self.widgets@[wanted(self.widgets@.subrange(0, i as int), fonts, snapshot)[k]],
                        fonts,
                        snapshot,
                    ),
                skipped@ == passed_over(self.widgets@.subrange(0, i as int), fonts, snapshot),
            decreases self.widgets.len() - i,
        {
            let ghost before = self.widgets@.subrange(0, i as int);
            let ghost after = self.widgets@.subrange(0, i + 1);
            assert(after.drop_last() =~= before);
            assert(after.last() == self.widgets@[i as int]);
            let id = self.widgets[i].id;
            let ghost earlier = requests@;
            match measurements.get(&id) {
                None => {},
                Some(value) => {
                    match &self.widgets[i].layout {
                        WidgetLayout::Text(text) => {
                            match self.render_text(id, text, *value) {
                                Ok(request) => {
                                    requests.push(request);
                                },
                                Err(error) => {
                                    skipped.push((id, error));
                                },
                            }
                        },
                        WidgetLayout::Graph(graph) => {
                            let _ = Renderer::render_graph(graph, *value);
                        },
                    }
                },
            }
            proof {
                assert forall|k: int| 0 <= k < requests.len() implies serves(
                    #[trigger] requests@[k],
                    self.widgets@[wanted(after, fonts, snapshot)[k]],
                    fonts,
                    snapshot,
                ) by {
                    if k < earlier.len() {
                        assert(requests@[k] == earlier[k]);
                        assert(wanted(after, fonts, snapshot)[k] == wanted(before, fonts, snapshot)[k]);
                    } else {
                        assert(settable(self.widgets@[i as int], fonts, snapshot));
                        assert(wanted(after, fonts, snapshot)[k] == i);
                    }
                }
            }
            i = i + 1;
        }
        assert(self.widgets@.subrange(0, i as int) =~= self.widgets@);
        Plan { requests, skipped }
    }
}

/// Drawing a raster keeps the scene well formed, the display at its size and
/// every widget with its meter and its layout: what is drawn after it is
/// decided as it was before.
pub proof fn lemma_drawn_keeps(scene: Scene, id: u64, raster: Raster)
    requires
        scene.wf(),
    ensures
        scene.drawn(id, raster).wf(),
        scene.drawn(id, raster).bounds() == scene.bounds(),
        scene.drawn(id, raster).base == scene.base,
        scene.drawn(id, raster).widgets.len() == scene.widgets.len(),
        forall|i: int|
            0 <= i < scene.widgets.len() ==> (#[trigger] scene.drawn(id, raster).widgets[i]).id
                == scene.widgets[i].id && scene.drawn(id, raster).widgets[i].layout
                == scene.widgets[i].layout,
        forall|other: u64|
            has_widget(scene.drawn(id, raster).widgets, other) == has_widget(scene.widgets, other),
        forall|other: u64|
            has_widget(scene.widgets, other) ==> widget_slot(
                scene.drawn(id, raster).widgets,
                other,
            ) == widget_slot(scene.widgets, other),
        forall|other: u64, next: Raster| #[trigger]
            scene.drawn(id, raster).draws(other, next) == scene.draws(other, next),
{
    let after = scene.drawn(id, raster);
    if scene.draws(id, raster) {
        let k = widget_slot(scene.widgets, id);
        assert(after.widgets.len() == scene.widgets.len());
        assert forall|i: int| 0 <= i < scene.widgets.len() implies (#[trigger] after.widgets[i]).id
            == scene.widgets[i].id && after.widgets[i].layout == scene.widgets[i].layout by {}
        assert forall|other: u64| has_widget(after.widgets, other) == has_widget(
            scene.widgets,
            other,
        ) by {
            if has_widget(scene.widgets, other) {
                let j = widget_slot(scene.widgets, other);
                assert(after.widgets[j].id == other);
            }
            if has_widget(after.widgets, other) {
                let j = widget_slot(after.widgets, other);
                assert(scene.widgets[j].id == other);
            }
        }
        assert forall|i: int, j: int|
            0 <= i < after.widgets.len() && 0 <= j < after.widgets.len() && i != j implies (
        #[trigger] after.widgets[i]).id != (#[trigger] after.widgets[j]).id by {
            assert(after.widgets[i].id == scene.widgets[i].id);
            assert(after.widgets[j].id == scene.widgets[j].id);
        }
        assert forall|other: u64| has_widget(scene.widgets, other) implies widget_slot(
            after.widgets,
            other,
        ) == widget_slot(scene.widgets, other) by {
            let j = widget_slot(scene.widgets, other);
            assert(after.widgets[j].id == other);
            let m = widget_slot(after.widgets, other);
            assert(after.widgets[m].id == other);
        }
    }
}

/// The raster of a text that was requested is drawn: a request is made for
/// widgets that show text only, so a valid raster for one of them is never
/// refused.
pub proof fn lemma_requested_is_drawn(scene: Scene, j: int, request: TextRequest, raster: Raster)
    requires
        scene.wf(),
        0 <= j < scene.widgets.len(),
        scene.widgets[j].layout is Text,
        request.id == scene.widgets[j].id,
        raster.valid(),
    ensures
        scene.draws(request.id, raster),
{
    let k = widget_slot(scene.widgets, request.id);
    assert(scene.widgets[j].id == request.id);
    assert(scene.widgets[k].id == request.id);
}

/// The rectangle that a snapshot leaves as changed is the bounding box of the
/// rectangles of the rasters that were drawn for it, and of nothing else.
pub proof fn lemma_dirty_is_hull_of_drawn(scene: Scene, rasters: Seq<(u64, Raster)>)
    requires
        scene.wf(),
    ensures
        scene.composed(rasters).wf(),
        scene.composed(rasters).bounds() == scene.bounds(),
        forall|id: u64, raster: Raster| #[trigger]
            scene.composed(rasters).draws(id, raster) == scene.draws(id, raster),
        scene.composed(rasters).dirty == hull_of(scene.drawn_rects(rasters)),
    decreases rasters.len(),
{
    if rasters.len() == 0 {
        let after = scene.begun();
        assert(after.widgets == scene.widgets);
    } else {
        let front = rasters.drop_last();
        let middle = scene.composed(front);
        lemma_dirty_is_hull_of_drawn(scene, front);
        lemma_drawn_keeps(middle, rasters.last().0, rasters.last().1);
        let id = rasters.last().0;
        let raster = rasters.last().1;
        assert(middle.draws(id, raster) == scene.draws(id, raster));
        if scene.draws(id, raster) {
            let rects = scene.drawn_rects(front);
            let rect = raster.rect.common(scene.bounds());
            assert(rects.push(rect).drop_last() =~= rects);
            assert(rects.push(rect).last() == rect);
        }
        assert forall|other: u64, next: Raster| #[trigger]
            scene.composed(rasters).draws(other, next) == scene.draws(other, next) by {
            assert(middle.drawn(id, raster).draws(other, next) == middle.draws(other, next));
            assert(middle.draws(other, next) == scene.draws(other, next));
        }
    }
}

/// Drawing a raster changes no pixel outside the widget's last drawing and
/// the raster's rectangle: what other widgets show stays as it is.
pub proof fn lemma_drawn_stays_inside(scene: Scene, id: u64, raster: Raster, i: int)
    requires
        scene.wf(),
        scene.draws(id, raster),
        0 <= i < scene.live.len(),
        !lies_in(
            scene.widgets[widget_slot(scene.widgets, id)].footprint,
            scene.columns as int,
            i,
        ),
        !lies_in(raster.rect, scene.columns as int, i),
    ensures
        scene.drawn(id, raster).live[i] == scene.live[i],
{
}

/// A text drawn over an earlier text of the same widget leaves nothing of the
/// earlier one: every pixel that the first raster held and the second does
/// not shows the background again.
pub proof fn lemma_redraw_leaves_no_residue(
    scene: Scene,
    id: u64,
    first: Raster,
    second: Raster,
    i: int,
)
    requires
        scene.wf(),
        scene.draws(id, first),
        scene.draws(id, second),
        0 <= i < scene.live.len(),
        lies_in(first.rect, scene.columns as int, i),
        !lies_in(second.rect, scene.columns as int, i),
    ensures
        scene.drawn(id, first).drawn(id, second).live[i] == scene.base[i],
{
    let once = scene.drawn(id, first);
    lemma_drawn_keeps(scene, id, first);
    assert(once.draws(id, second) == scene.draws(id, second));
    let k = widget_slot(scene.widgets, id);
    assert(widget_slot(once.widgets, id) == k);
    lemma_index(i, scene.columns as int, scene.rows as int);
    let footprint = first.rect.common(scene.bounds());
    assert(once.widgets[k].footprint == footprint);
    assert(lies_in(footprint, scene.columns as int, i));
}

} // verus!
