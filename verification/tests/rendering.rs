use meter_panel::binding::register_meters;
use meter_panel::config::{GraphWidget, MeterConfig, TextWidget, WidgetLayout};
use meter_panel::fonts::{fonts_to_load, FontCache, FontError};
use meter_panel::framebuffer::{Image, Raster};
use meter_panel::geometry::Rect;
use meter_panel::meter::{meter_id, MeterKind};
use meter_panel::pixel::Rgba;
use meter_panel::render::{DeviceError, RenderError, Renderer, TextRequest};
use meter_panel::sample::Sample;
use meter_panel::scheduler::Scheduler;
use std::collections::HashMap;

const WHITE: Rgba = Rgba { r: 255, g: 255, b: 255, a: 255 };
const RED: Rgba = Rgba { r: 255, g: 0, b: 0, a: 255 };
const GREY: Rgba = Rgba { r: 90, g: 90, b: 90, a: 255 };

fn text_at(id: u64, x: usize, y: usize, font: &str, color: Rgba) -> MeterConfig {
    MeterConfig {
        id,
        interval: 1,
        layout: WidgetLayout::Text(TextWidget::new(x, y, String::from(font), 20, color)),
    }
}

fn graph(id: u64) -> MeterConfig {
    MeterConfig {
        id,
        interval: 1,
        layout: WidgetLayout::Graph(GraphWidget { x: 0, y: 0, width: 8, height: 8 }),
    }
}

fn cache_with(names: &[&str]) -> FontCache {
    let mut cache = FontCache::new();
    for name in names {
        cache.enter(String::from(*name), true).unwrap();
    }
    cache
}

fn renderer(configs: &Vec<MeterConfig>, fonts: &[&str], width: usize, height: usize) -> Renderer {
    let mut r = match Renderer::new(configs, cache_with(fonts), Ok((width, height))) {
        Ok(r) => r,
        Err(error) => panic!("no renderer: {:?}", error),
    };
    let background = Image { width, height, pixels: vec![GREY; width * height] };
    assert_eq!(r.start(&background), Ok(Rect::new(0, 0, width, height)));
    r
}

fn solid(rect: Rect) -> Raster {
    Raster { rect, coverage: vec![255; rect.width() * rect.height()] }
}

fn snapshot(entries: &[(u64, i32)]) -> HashMap<u64, Sample> {
    let mut map = HashMap::new();
    for (id, value) in entries {
        map.insert(*id, Sample::from_units(*value));
    }
    map
}

#[test]
fn fonts_to_load_names_each_font_once() {
    let configs = vec![
        text_at(1, 0, 0, "mono.ttf", WHITE),
        graph(2),
        text_at(3, 0, 0, "sans.ttf", WHITE),
        text_at(4, 0, 0, "mono.ttf", WHITE),
        text_at(5, 0, 0, "sans.ttf", WHITE),
    ];
    assert_eq!(fonts_to_load(&configs), vec![String::from("mono.ttf"), String::from("sans.ttf")]);
    assert_eq!(fonts_to_load(&vec![graph(1)]), Vec::<String>::new());
    assert_eq!(fonts_to_load(&Vec::new()), Vec::<String>::new());
}

#[test]
fn the_cache_holds_a_font_once() {
    let mut cache = FontCache::new();
    assert_eq!(cache.len(), 0);
    assert_eq!(cache.lookup(&String::from("mono.ttf")), None);
    assert_eq!(cache.enter(String::from("mono.ttf"), true), Ok(0));
    assert_eq!(cache.enter(String::from("sans.ttf"), true), Ok(1));
    assert_eq!(cache.enter(String::from("mono.ttf"), true), Ok(0));
    assert_eq!(cache.enter(String::from("mono.ttf"), false), Ok(0));
    assert_eq!(cache.len(), 2);
    assert_eq!(cache.lookup(&String::from("sans.ttf")), Some(1));
    assert!(cache.contains(&String::from("mono.ttf")));
}

#[test]
fn a_font_that_was_not_loaded_is_not_entered() {
    let mut cache = FontCache::new();
    assert_eq!(cache.enter(String::from("mono.ttf"), false), Err(FontError::Unreadable));
    assert_eq!(cache.len(), 0);
    assert!(!cache.contains(&String::from("mono.ttf")));
    assert_eq!(cache.enter(String::from("mono.ttf"), true), Ok(0));
}

#[test]
fn a_device_that_fails_to_come_up_gives_no_renderer() {
    let configs = vec![text_at(1, 0, 0, "mono.ttf", WHITE)];
    let made = Renderer::new(&configs, cache_with(&["mono.ttf"]), Err(DeviceError::InitFailed));
    assert!(matches!(made, Err(RenderError::Device(DeviceError::InitFailed))));
    let made = Renderer::new(&configs, cache_with(&["mono.ttf"]), Err(DeviceError::NotFound));
    assert!(matches!(made, Err(RenderError::Device(DeviceError::NotFound))));
    assert!(RenderError::Device(DeviceError::InitFailed).is_fatal());
}

#[test]
fn a_display_too_large_gives_no_renderer() {
    let made = Renderer::new(&Vec::new(), FontCache::new(), Ok((usize::MAX, 2)));
    assert!(matches!(made, Err(RenderError::DisplayTooLarge)));
}

#[test]
fn errors_of_one_widget_do_not_end_the_renderer() {
    assert!(RenderError::DisplayTooLarge.is_fatal());
    assert!(RenderError::BadBackground.is_fatal());
    assert!(RenderError::Device(DeviceError::NotFound).is_fatal());
    assert!(!RenderError::UnknownWidget.is_fatal());
    assert!(!RenderError::FontNotLoaded.is_fatal());
    assert!(!RenderError::NotText.is_fatal());
    assert!(!RenderError::BadRaster.is_fatal());
}

#[test]
fn a_new_renderer_is_blank_and_clean() {
    let configs = vec![text_at(1, 0, 0, "mono.ttf", WHITE)];
    let r = Renderer::new(&configs, cache_with(&["mono.ttf"]), Ok((6, 4))).ok().unwrap();
    assert_eq!(r.size(), (6, 4));
    assert!(r.dirty().is_empty());
    assert_eq!(r.region(Rect::new(0, 0, 6, 4)), vec![Rgba::clear(); 24]);
    assert_eq!(r.pixel(6, 0), None);
}

#[test]
fn start_puts_the_background_behind_everything() {
    let configs = vec![text_at(1, 0, 0, "mono.ttf", WHITE)];
    let mut r = Renderer::new(&configs, cache_with(&["mono.ttf"]), Ok((6, 4))).ok().unwrap();
    let background = Image { width: 4, height: 8, pixels: vec![GREY; 32] };
    assert_eq!(r.start(&background), Ok(Rect::new(0, 0, 4, 4)));
    assert_eq!(r.pixel(3, 3), Some(GREY));
    assert_eq!(r.pixel(4, 3), Some(Rgba::clear()));
    let broken = Image { width: 4, height: 8, pixels: vec![RED; 31] };
    assert_eq!(r.start(&broken), Err(RenderError::BadBackground));
    assert_eq!(r.pixel(3, 3), Some(GREY));
}

#[test]
fn render_text_asks_for_the_formatted_value() {
    let r = renderer(&Vec::new(), &["sans.ttf", "mono.ttf"], 8, 8);
    let mut widget = TextWidget::new(10, 12, String::from("mono.ttf"), 24, RED);
    assert_eq!(
        r.render_text(7, &widget, Sample::from_units(55)),
        Ok(TextRequest {
            id: 7,
            font: 1,
            font_size: 24,
            color: RED,
            x: 10,
            y: 12,
            text: String::from(" 55"),
        })
    );
    widget.field_width = 6;
    widget.precision = 1;
    let request = r.render_text(7, &widget, Sample::from_millis(-3250)).unwrap();
    assert_eq!(request.text, "  -3.2");
    widget.font = String::from("serif.ttf");
    assert_eq!(
        r.render_text(7, &widget, Sample::from_units(55)),
        Err(RenderError::FontNotLoaded)
    );
}

#[test]
fn render_graph_takes_any_value() {
    let g = GraphWidget { x: 0, y: 0, width: 8, height: 8 };
    assert_eq!(Renderer::render_graph(&g, Sample::from_units(55)), Ok(()));
    assert_eq!(Renderer::render_graph(&g, Sample::from_millis(i64::MIN)), Ok(()));
}

#[test]
fn render_widget_goes_by_the_layout() {
    let configs = vec![text_at(1, 2, 3, "mono.ttf", WHITE), graph(2), text_at(3, 0, 0, "none.ttf", WHITE)];
    let r = renderer(&configs, &["mono.ttf"], 8, 8);
    let request = r.render_widget(1, Sample::from_units(7)).unwrap().unwrap();
    assert_eq!(request.text, "  7");
    assert_eq!((request.id, request.font, request.x, request.y), (1, 0, 2, 3));
    assert_eq!(r.render_widget(2, Sample::from_units(7)), Ok(None));
    assert_eq!(r.render_widget(3, Sample::from_units(7)), Err(RenderError::FontNotLoaded));
    assert_eq!(r.render_widget(4, Sample::from_units(7)), Err(RenderError::UnknownWidget));
}

#[test]
fn a_later_entry_for_a_meter_replaces_the_earlier() {
    let configs = vec![text_at(1, 2, 3, "mono.ttf", WHITE), graph(2), text_at(1, 5, 6, "mono.ttf", RED)];
    let r = renderer(&configs, &["mono.ttf"], 8, 8);
    let plan = r.render(&snapshot(&[(1, 4), (2, 5)]));
    assert_eq!(plan.requests.len(), 1);
    assert_eq!((plan.requests[0].x, plan.requests[0].y, plan.requests[0].color), (5, 6, RED));
}

#[test]
fn render_plans_the_widgets_that_have_a_value() {
    let configs = vec![
        text_at(1, 0, 0, "mono.ttf", WHITE),
        graph(2),
        text_at(3, 9, 9, "none.ttf", WHITE),
        text_at(4, 4, 4, "mono.ttf", RED),
        text_at(5, 6, 6, "mono.ttf", RED),
    ];
    let r = renderer(&configs, &["mono.ttf"], 8, 8);
    let plan = r.render(&snapshot(&[(4, 100), (3, 1), (2, 9), (1, 42), (77, 1)]));
    let texts: Vec<(u64, &str)> =
        plan.requests.iter().map(|request| (request.id, request.text.as_str())).collect();
    assert_eq!(texts, vec![(1, " 42"), (4, "100")]);
    assert_eq!(plan.skipped, vec![(3, RenderError::FontNotLoaded)]);
    let none = r.render(&HashMap::new());
    assert!(none.requests.is_empty() && none.skipped.is_empty());
}

#[test]
fn a_font_loaded_later_lets_the_widget_be_drawn() {
    let configs = vec![text_at(3, 9, 9, "late.ttf", WHITE)];
    let mut r = renderer(&configs, &["mono.ttf"], 8, 8);
    assert_eq!(r.render(&snapshot(&[(3, 1)])).skipped, vec![(3, RenderError::FontNotLoaded)]);
    assert_eq!(r.load_font(String::from("late.ttf"), false), Err(FontError::Unreadable));
    assert_eq!(r.load_font(String::from("late.ttf"), true), Ok(1));
    assert_eq!(r.load_font(String::from("late.ttf"), true), Ok(1));
    let plan = r.render(&snapshot(&[(3, 1)]));
    assert_eq!(plan.requests.len(), 1);
    assert_eq!(plan.requests[0].font, 1);
}

#[test]
fn draw_text_lays_the_raster_on_in_the_colour_of_the_widget() {
    let configs = vec![text_at(1, 1, 1, "mono.ttf", RED)];
    let mut r = renderer(&configs, &["mono.ttf"], 6, 4);
    let raster = Raster { rect: Rect::new(1, 1, 3, 2), coverage: vec![255, 0] };
    assert_eq!(r.draw_text(1, &raster), Ok(Rect::new(1, 1, 3, 2)));
    assert_eq!(r.pixel(1, 1), Some(RED));
    assert_eq!(r.pixel(2, 1), Some(GREY));
    assert_eq!(r.pixel(0, 0), Some(GREY));
    assert_eq!(r.dirty(), Rect::new(1, 1, 3, 2));
    assert_eq!(r.region(r.dirty()), vec![RED, GREY]);
}

#[test]
fn draw_text_refuses_what_it_cannot_draw() {
    let configs = vec![text_at(1, 1, 1, "mono.ttf", RED), graph(2)];
    let mut r = renderer(&configs, &["mono.ttf"], 6, 4);
    let good = solid(Rect::new(0, 0, 2, 2));
    let bad = Raster { rect: Rect::new(0, 0, 2, 2), coverage: vec![255; 5] };
    assert_eq!(r.draw_text(9, &good), Err(RenderError::UnknownWidget));
    assert_eq!(r.draw_text(2, &good), Err(RenderError::NotText));
    assert_eq!(r.draw_text(1, &bad), Err(RenderError::BadRaster));
    assert!(r.dirty().is_empty());
    assert_eq!(r.region(Rect::new(0, 0, 6, 4)), vec![GREY; 24]);
}

#[test]
fn a_second_text_leaves_nothing_of_the_first() {
    let configs = vec![text_at(1, 1, 1, "mono.ttf", RED)];
    let mut r = renderer(&configs, &["mono.ttf"], 10, 6);
    // the first text is wider and higher than the second
    assert_eq!(r.compose(&vec![(1, solid(Rect::new(1, 1, 8, 5)))]), Rect::new(1, 1, 8, 5));
    assert_eq!(r.pixel(7, 4), Some(RED));
    assert_eq!(r.compose(&vec![(1, solid(Rect::new(3, 2, 6, 4)))]), Rect::new(3, 2, 6, 4));
    for y in 0..6 {
        for x in 0..10 {
            let inside = 3 <= x && x < 6 && 2 <= y && y < 4;
            assert_eq!(r.pixel(x, y), Some(if inside { RED } else { GREY }));
        }
    }
}

#[test]
fn the_changed_rectangle_bounds_what_was_drawn() {
    let configs = vec![
        text_at(1, 1, 1, "mono.ttf", RED),
        text_at(2, 20, 1, "mono.ttf", WHITE),
        text_at(3, 1, 20, "mono.ttf", WHITE),
        graph(4),
    ];
    let mut r = renderer(&configs, &["mono.ttf"], 40, 30);
    // widget 3 is drawn in one snapshot
    assert_eq!(r.compose(&vec![(3, solid(Rect::new(1, 20, 9, 28)))]), Rect::new(1, 20, 9, 28));
    // and left alone in the next, where two others are drawn and two rasters are refused
    let rasters = vec![
        (1, solid(Rect::new(1, 1, 9, 7))),
        (4, solid(Rect::new(30, 25, 35, 29))),
        (2, solid(Rect::new(20, 2, 31, 9))),
        (9, solid(Rect::new(0, 0, 40, 30))),
    ];
    assert_eq!(r.compose(&rasters), Rect::new(1, 1, 31, 9));
    assert_eq!(r.dirty(), Rect::new(1, 1, 31, 9));
    assert_eq!(r.pixel(1, 20), Some(WHITE));
    // a snapshot that draws nothing changes nothing
    assert!(r.compose(&Vec::new()).is_empty());
}

#[test]
fn a_raster_beyond_the_display_is_cut_to_it() {
    let configs = vec![text_at(1, 1, 1, "mono.ttf", RED)];
    let mut r = renderer(&configs, &["mono.ttf"], 6, 4);
    assert_eq!(r.compose(&vec![(1, solid(Rect::new(4, 2, 9, 7)))]), Rect::new(4, 2, 6, 4));
    assert_eq!(r.pixel(5, 3), Some(RED));
    assert!(r.compose(&vec![(1, solid(Rect::new(7, 7, 9, 9)))]).is_empty());
    assert_eq!(r.region(Rect::new(0, 0, 6, 4)), vec![GREY; 24]);
}

#[test]
fn a_sampled_value_reaches_the_display() {
    // one text widget at (10, 10) without digits after the point, sampled
    // every 2 s, the table published every 5 s
    let id = meter_id("CPU:PERCENTAGE");
    let configs = vec![MeterConfig {
        id,
        interval: 2,
        layout: WidgetLayout::Text(TextWidget::new(10, 10, String::from("mono.ttf"), 20, WHITE)),
    }];
    let mut r = renderer(&configs, &["mono.ttf"], 64, 32);
    let mut s = Scheduler::new(5000, 0);
    assert!(register_meters(&mut s, &configs, &vec![MeterKind::CpuPercentage], 0).is_empty());
    assert!(s.tick(2000, &vec![(id, Ok(Sample::from_units(42)))]).is_none());
    assert!(s.tick(4000, &vec![(id, Ok(Sample::from_units(55)))]).is_none());
    let published = s.tick(5000, &Vec::new()).unwrap();
    assert_eq!(published, snapshot(&[(id, 55)]));

    let plan = r.render(&published);
    assert!(plan.skipped.is_empty());
    assert_eq!(
        plan.requests,
        vec![TextRequest {
            id,
            font: 0,
            font_size: 20,
            color: WHITE,
            x: 10,
            y: 10,
            text: String::from(" 55"),
        }]
    );
    // the font sets the three characters in a box of 30 by 14 pixels
    let glyphs = Rect::from_size(plan.requests[0].x, plan.requests[0].y, 30, 14).unwrap();
    let dirty = r.compose(&vec![(id, solid(glyphs))]);
    assert_eq!(dirty, glyphs);
    assert_eq!(r.region(dirty), vec![WHITE; 30 * 14]);
}
