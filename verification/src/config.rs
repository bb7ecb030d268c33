//! What configuration says of each meter: how often it is sampled and where
//! its value is shown.

use crate::pixel::Rgba;
use vstd::prelude::*;

verus! {

/// Characters in the field of a text widget unless its layout says otherwise.
pub const DEFAULT_FIELD_WIDTH: usize = 3;

/// Digits after the decimal point unless the layout says otherwise.
pub const DEFAULT_PRECISION: usize = 0;

/// A value shown as text: where its top left corner lies, and how it is set.
#[derive(Debug, PartialEq, Eq)]
pub struct TextWidget {
    pub x: usize,
    pub y: usize,
    /// Name of the font.
    pub font: String,
    pub font_size: u32,
    pub color: Rgba,
    /// Characters in the field; shorter text is moved to its right end.
    pub field_width: usize,
    /// Digits after the decimal point.
    pub precision: usize,
}

/// A value shown as a graph in a rectangle of the display.
#[derive(Clone, Copy, Debug, PartialEq, Eq, Structural)]
pub struct GraphWidget {
    pub x: usize,
    pub y: usize,
    pub width: usize,
    pub height: usize,
}

/// How one meter is shown.
#[derive(Debug, PartialEq, Eq)]
pub enum WidgetLayout {
    Text(TextWidget),
    Graph(GraphWidget),
}

/// One meter of the configuration.
#[derive(Debug, PartialEq, Eq)]
pub struct MeterConfig {
    /// Identifier of the meter.
    pub id: u64,
    /// Seconds from one sampling to the next; above zero.
    pub interval: u32,
    pub layout: WidgetLayout,
}

impl TextWidget {
    /// A text widget with the default field and precision.
    pub fn new(x: usize, y: usize, font: String, font_size: u32, color: Rgba) -> (w: TextWidget)
        ensures
            w == (TextWidget {
                x,
                y,
                font,
                font_size,
                color,
                field_width: DEFAULT_FIELD_WIDTH,
                precision: DEFAULT_PRECISION,
            }),
    {
        TextWidget {
            x,
            y,
            font,
            font_size,
            color,
            field_width: DEFAULT_FIELD_WIDTH,
            precision: DEFAULT_PRECISION,
        }
    }
}

impl Clone for TextWidget {
    fn clone(&self) -> (copy: Self)
        ensures
            copy == *self,
    {
        TextWidget {
            x: self.x,
            y: self.y,
            font: self.font.clone(),
            font_size: self.font_size,
            color: self.color,
            field_width: self.field_width,
            precision: self.precision,
        }
    }
}

impl Clone for WidgetLayout {
    fn clone(&self) -> (copy: Self)
        ensures
            copy == *self,
    {
        match self {
            WidgetLayout::Text(text) => WidgetLayout::Text(text.clone()),
            WidgetLayout::Graph(graph) => WidgetLayout::Graph(*graph),
        }
    }
}

impl Clone for MeterConfig {
    fn clone(&self) -> (copy: Self)
        ensures
            copy == *self,
    {
        MeterConfig { id: self.id, interval: self.interval, layout: self.layout.clone() }
    }
}

impl MeterConfig {
    /// The interval is above zero.
    pub open spec fn valid(&self) -> bool {
        self.interval > 0
    }

    /// Whether the interval is above zero.
    pub fn is_valid(&self) -> (ok: bool)
        ensures
            ok == self.valid(),
    {
        self.interval > 0
    }

    /// The interval in milliseconds.
    pub fn interval_millis(&self) -> (ms: u64)
        ensures
            ms == self.interval * 1000,
    {
        let secs: u64 = self.interval as u64;
        secs * 1000
    }
}

} // verus!
