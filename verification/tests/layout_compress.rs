use imagebox::color::{Color, ColorInput};
use imagebox::compress::{compress_image, compression_target, raster_from_parts, raster_into_parts, resize_dimensions, target_bytes};
use imagebox::data_model::{CharacterConfig, HorizontalAlign, ObjectConfig, TextAreaConfig, VerticalAlign};
use imagebox::render::{plan_render, RenderStep};
use imagebox::layout::{block_y, line_x, plan_object_text, plan_textarea};
use imagebox::metrics::FontMetrics;

fn chars(s: &str) -> Vec<char> {
    s.chars().collect()
}

fn uniform_font(units_per_em: u32, advance: u32) -> FontMetrics {
    FontMetrics {
        units_per_em,
        line_height_units: units_per_em,
        advances: Vec::new(),
        default_advance: advance,
    }
}

fn white() -> Color {
    Color { r: 255, g: 255, b: 255, a: 255 }
}

#[test]
fn right_aligned_line_ends_at_the_right_edge() {
    // A line of width 50 in [10, 210) starts at 210 - 50 = 160.
    assert_eq!(line_x(HorizontalAlign::Right, 10, 200, 50), 160);
}

#[test]
fn left_and_center_alignment() {
    assert_eq!(line_x(HorizontalAlign::Left, 10, 200, 50), 10);
    assert_eq!(line_x(HorizontalAlign::Center, 10, 200, 50), 85);
    // A line wider than the region is centered by overhanging both sides.
    assert_eq!(line_x(HorizontalAlign::Center, 10, 200, 300), -40);
}

#[test]
fn vertical_alignment() {
    assert_eq!(block_y(VerticalAlign::Top, 5, 100, 40), 5);
    assert_eq!(block_y(VerticalAlign::Middle, 5, 100, 40), 35);
    assert_eq!(block_y(VerticalAlign::Bottom, 5, 100, 40), 65);
}

fn test_config(align: HorizontalAlign, highlight: Option<ColorInput>) -> TextAreaConfig {
    TextAreaConfig {
        position: [10, 20],
        size: [200, 60],
        font_color: ColorInput::Literal("white".to_string()),
        highlight,
        max_font_size: Some(40),
        shadow_offset: (2, 3),
        line_spacing: 0,
        align,
        valign: VerticalAlign::Top,
    }
}

#[test]
fn plan_draws_shadow_then_text() {
    let fm = uniform_font(1000, 500);
    let cmds = plan_textarea("Hello World", &fm, &test_config(HorizontalAlign::Left, None), white());
    assert_eq!(cmds.len(), 2);
    // Shadow first, in black, at the offset position.
    assert_eq!(cmds[0].text, chars("Hello World"));
    assert_eq!(cmds[0].x, 12);
    assert_eq!(cmds[0].y, 23);
    assert_eq!(cmds[0].color, Color { r: 0, g: 0, b: 0, a: 255 });
    // Then the text itself, in the resolved color, at the nominal position.
    assert_eq!(cmds[1].text, chars("Hello World"));
    assert_eq!(cmds[1].x, 10);
    assert_eq!(cmds[1].y, 20);
    assert_eq!(cmds[1].color, white());
    assert_eq!(cmds[1].font_size, 36);
}

#[test]
fn plan_right_alignment_places_line_at_the_edge() {
    let fm = uniform_font(1000, 500);
    let cmds = plan_textarea("Hello World", &fm, &test_config(HorizontalAlign::Right, None), white());
    // Size 36: the line is ceil(5.5 * 36) = 198 px wide; x2 = 210.
    assert_eq!(cmds[1].x, 210 - 198);
}

#[test]
fn plan_highlight_color_overrides() {
    let fm = uniform_font(1000, 500);
    let hl = ColorInput::RgbaArr([255, 0, 0, 255]);
    let cmds = plan_textarea("a[b]", &fm, &test_config(HorizontalAlign::Left, Some(hl)), white());
    // Two runs, two commands each.
    assert_eq!(cmds.len(), 4);
    assert_eq!(cmds[1].color, white());
    assert_eq!(cmds[3].color, Color { r: 255, g: 0, b: 0, a: 255 });
    assert_eq!(cmds[3].text, chars("[b]"));
}

#[test]
fn plan_empty_caption_draws_nothing() {
    let fm = uniform_font(1000, 500);
    let cmds = plan_textarea("", &fm, &test_config(HorizontalAlign::Left, None), white());
    assert!(cmds.is_empty());
}

#[test]
fn object_text_plan_skips_empty_text() {
    let cmds = plan_object_text("", [5, 6], &ColorInput::RgbArr([1, 2, 3]), 24, white());
    assert!(cmds.is_empty());
}

#[test]
fn object_text_plan_uses_fixed_shadow_offset() {
    let cmds = plan_object_text("hi", [5, 6], &ColorInput::RgbArr([1, 2, 3]), 24, white());
    assert_eq!(cmds.len(), 2);
    assert_eq!((cmds[0].x, cmds[0].y), (7, 8));
    assert_eq!((cmds[1].x, cmds[1].y), (5, 6));
    assert_eq!(cmds[1].color, Color { r: 1, g: 2, b: 3, a: 255 });
    assert_eq!(cmds[1].font_size, 24);
}

#[test]
fn resolve_color_literals() {
    let primary = Color { r: 9, g: 8, b: 7, a: 6 };
    assert_eq!(ColorInput::Literal("primary".to_string()).to_rgba(primary), primary);
    assert_eq!(
        ColorInput::Literal("white".to_string()).to_rgba(primary),
        Color { r: 255, g: 255, b: 255, a: 255 }
    );
    assert_eq!(
        ColorInput::Literal("anything".to_string()).to_rgba(primary),
        Color { r: 0, g: 0, b: 0, a: 255 }
    );
    assert_eq!(
        ColorInput::RgbaArr([1, 2, 3, 4]).to_rgba(primary),
        Color { r: 1, g: 2, b: 3, a: 4 }
    );
}

#[test]
fn resize_scale_is_sqrt_half_times_nine_tenths() {
    // Encoded size twice the budget: the scale is sqrt(0.5) * 0.9 = 0.6364,
    // so 100 px become floor(63.64) = 63 px and 50 px become 31 px.
    let (w, h) = resize_dimensions(100, 50, 1000, 2000);
    assert_eq!(w, 63);
    assert_eq!(h, 31);
}

#[test]
fn resize_dimensions_never_reach_zero() {
    let (w, h) = resize_dimensions(1, 1, 1, 1000000);
    assert_eq!(w, 1);
    assert_eq!(h, 1);
}

#[test]
fn compress_returns_small_images_unchanged() {
    let data = vec![128u8; 4 * 16 * 8];
    let img = raster_from_parts(16, 8, data.clone()).unwrap();
    let out = compress_image(img, 1 << 20);
    let (w, h, out_data) = raster_into_parts(out);
    assert_eq!((w, h), (16, 8));
    assert_eq!(out_data, data);
}

#[test]
fn compress_shrinks_oversized_images() {
    // A noisy image encodes poorly; a one-byte budget forces a resize.
    let mut data = Vec::new();
    for i in 0..(4 * 64 * 64u32) {
        data.push((i * 97 % 251) as u8);
    }
    let img = raster_from_parts(64, 64, data).unwrap();
    let out = compress_image(img, 1);
    let (w, h, _) = raster_into_parts(out);
    assert!(w < 64 && h < 64);
    assert!(w >= 1 && h >= 1);
}

#[test]
fn raster_rejects_short_buffers() {
    assert!(raster_from_parts(4, 4, vec![0u8; 7]).is_none());
}

#[test]
fn render_plan_paints_objects_first_and_caption_last() {
    let fm = uniform_font(1000, 500);
    let character = CharacterConfig {
        id: "a".to_string(),
        name: "A".to_string(),
        backgrounds: vec!["*.png".to_string()],
        font: "f.ttf".to_string(),
        primary_color: white(),
        objects: vec![
            ObjectConfig::Image { position: [3, 4], path: vec!["p/*.png".to_string()] },
            ObjectConfig::Text {
                text: "tag".to_string(),
                position: [7, 8],
                font_color: ColorInput::RgbArr([9, 9, 9]),
                font_size: 12,
            },
        ],
        textarea: test_config(HorizontalAlign::Left, None),
    };
    let steps = plan_render(&character, &fm, "Hi");
    assert_eq!(steps.len(), 3);
    match &steps[0] {
        RenderStep::Overlay { position, patterns } => {
            assert_eq!(*position, [3, 4]);
            assert_eq!(patterns, &vec!["p/*.png".to_string()]);
        },
        _ => panic!("expected an overlay step"),
    }
    match &steps[1] {
        RenderStep::DrawText(cmds) => {
            assert_eq!(cmds.len(), 2);
            assert_eq!(cmds[1].text, chars("tag"));
            assert_eq!((cmds[1].x, cmds[1].y), (7, 8));
        },
        _ => panic!("expected a text step"),
    }
    match &steps[2] {
        RenderStep::DrawText(cmds) => {
            assert_eq!(cmds.len(), 2);
            assert_eq!(cmds[1].text, chars("Hi"));
        },
        _ => panic!("expected the caption step"),
    }
}

#[test]
fn compress_with_zero_budget_collapses_to_one_pixel() {
    let img = raster_from_parts(8, 8, vec![7u8; 4 * 8 * 8]).unwrap();
    let out = compress_image(img, 0);
    let (w, h, _) = raster_into_parts(out);
    assert_eq!((w, h), (1, 1));
}

#[test]
fn target_bytes_scales_and_saturates() {
    assert_eq!(target_bytes(256), 256 * 1024);
    assert_eq!(target_bytes(0), 0);
    assert_eq!(target_bytes(usize::MAX / 1024 + 1), usize::MAX);
}

#[test]
fn zero_kilobyte_budget_disables_compression() {
    assert_eq!(compression_target(0), None);
    assert_eq!(compression_target(256), Some(256 * 1024));
    assert_eq!(compression_target(usize::MAX / 1024 + 1), Some(usize::MAX));
}

#[test]
fn infeasible_caption_is_still_planned_at_size_one() {
    // 16 em per character in a 10 x 3 px region: nothing fits; the plan
    // draws the size-1 layout from the top and drops lines at the bottom
    // edge. Line height 1, so three of the four lines fit before the cursor
    // reaches the bottom.
    let fm = uniform_font(100, 1600);
    let config = TextAreaConfig {
        position: [0, 0],
        size: [10, 3],
        font_color: ColorInput::Literal("white".to_string()),
        highlight: None,
        max_font_size: None,
        shadow_offset: (0, 0),
        line_spacing: 0,
        align: HorizontalAlign::Left,
        valign: VerticalAlign::Top,
    };
    let cmds = plan_textarea("xxxx", &fm, &config, white());
    assert_eq!(cmds.len(), 6);
    for cmd in &cmds {
        assert_eq!(cmd.font_size, 1);
        assert_eq!(cmd.text, chars("x"));
    }
    assert_eq!(cmds[1].y, 0);
    assert_eq!(cmds[3].y, 1);
    assert_eq!(cmds[5].y, 2);
}
