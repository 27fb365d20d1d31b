use imagebox::fit::prepare_textarea;
use imagebox::metrics::FontMetrics;
use imagebox::segment::parse_highlighted_text;
use imagebox::wrap::wrap_text;

fn chars(s: &str) -> Vec<char> {
    s.chars().collect()
}

/// A font where every character advances `advance` font units and the line
/// height is one em.
fn uniform_font(units_per_em: u32, advance: u32) -> FontMetrics {
    FontMetrics {
        units_per_em,
        line_height_units: units_per_em,
        advances: Vec::new(),
        default_advance: advance,
    }
}

#[test]
fn parse_plain_highlight_plain() {
    let segs = parse_highlighted_text("a[b]c");
    assert_eq!(segs.len(), 3);
    assert_eq!(segs[0].text, chars("a"));
    assert!(!segs[0].is_highlighted);
    assert_eq!(segs[1].text, chars("[b]"));
    assert!(segs[1].is_highlighted);
    assert_eq!(segs[2].text, chars("c"));
    assert!(!segs[2].is_highlighted);
}

#[test]
fn parse_fullwidth_markers() {
    let segs = parse_highlighted_text("x\u{3010}y\u{3011}z");
    assert_eq!(segs.len(), 3);
    assert_eq!(segs[1].text, chars("\u{3010}y\u{3011}"));
    assert!(segs[1].is_highlighted);
}

#[test]
fn parse_unterminated_highlight_stays_highlighted() {
    let segs = parse_highlighted_text("a[bc");
    assert_eq!(segs.len(), 2);
    assert_eq!(segs[0].text, chars("a"));
    assert!(!segs[0].is_highlighted);
    assert_eq!(segs[1].text, chars("[bc"));
    assert!(segs[1].is_highlighted);
}

#[test]
fn parse_stray_end_marker_is_plain_text() {
    let segs = parse_highlighted_text("a]b");
    assert_eq!(segs.len(), 1);
    assert_eq!(segs[0].text, chars("a]b"));
    assert!(!segs[0].is_highlighted);
}

#[test]
fn wrap_round_trip_keeps_every_character() {
    // Each character is 50/100 em wide: 5 px per character at size 10.
    let fm = uniform_font(100, 50);
    let lines = wrap_text("hello brave new world", &fm, 10, 24);
    let mut collected = String::new();
    for line in &lines {
        for (seg, _) in line {
            collected.extend(seg.text.iter());
        }
    }
    assert_eq!(collected, "hello brave new world");
}

#[test]
fn wrap_lines_stay_within_budget() {
    let fm = uniform_font(100, 50);
    // 5 px per character at size 10; 24 px lines hold 4 characters.
    let lines = wrap_text("abcdefghij", &fm, 10, 24);
    assert_eq!(lines.len(), 3);
    for line in &lines {
        let width: u64 = line.iter().map(|(_, w)| *w as u64).sum();
        assert!(width <= 24);
    }
}

#[test]
fn wrap_overwide_character_is_placed_alone() {
    let fm = uniform_font(100, 300);
    // Each character is 30 px at size 10, wider than the 20 px budget.
    let lines = wrap_text("ab", &fm, 10, 20);
    assert_eq!(lines.len(), 2);
    assert_eq!(lines[0].len(), 1);
    assert_eq!(lines[0][0].0.text, chars("a"));
    assert_eq!(lines[0][0].1, 30);
}

#[test]
fn wrap_blank_paragraph_yields_empty_run() {
    let fm = uniform_font(100, 50);
    let lines = wrap_text("a\n\nb", &fm, 10, 100);
    assert_eq!(lines.len(), 3);
    assert_eq!(lines[1].len(), 1);
    assert!(lines[1][0].0.text.is_empty());
    assert_eq!(lines[1][0].1, 0);
}

#[test]
fn wrap_merges_adjacent_highlighted_segments() {
    let fm = uniform_font(100, 50);
    let lines = wrap_text("[a][b]", &fm, 10, 1000);
    assert_eq!(lines.len(), 1);
    assert_eq!(lines[0].len(), 1);
    assert_eq!(lines[0][0].0.text, chars("[a][b]"));
    assert!(lines[0][0].0.is_highlighted);
}

#[test]
fn wrap_splits_runs_at_highlight_boundaries() {
    let fm = uniform_font(100, 50);
    let lines = wrap_text("ab[cd]ef", &fm, 10, 1000);
    assert_eq!(lines.len(), 1);
    let line = &lines[0];
    assert_eq!(line.len(), 3);
    assert_eq!(line[0].0.text, chars("ab"));
    assert!(!line[0].0.is_highlighted);
    assert_eq!(line[1].0.text, chars("[cd]"));
    assert!(line[1].0.is_highlighted);
    assert_eq!(line[2].0.text, chars("ef"));
    assert!(!line[2].0.is_highlighted);
}

#[test]
fn measure_rounds_the_sum_once() {
    // 333/1000 em per character: 3.33 px each at size 10.
    let fm = uniform_font(1000, 333);
    assert_eq!(fm.measure_text_width(&chars("aaa"), 10), 10); // ceil(9.99)
    assert_eq!(fm.char_width_px('a', 10), 4); // ceil(3.33)
}

#[test]
fn fit_hello_world_in_region() {
    // Advance 500/1000 em, line height one em: "Hello World" (11 characters)
    // is ceil(5.5 k) px wide and k px tall at size k. In a 200 x 60 region
    // with cap 40, one line of size 36 is the largest fit: at 37 the line is
    // 204 px and must wrap, and two 37 px lines overflow the height.
    let fm = uniform_font(1000, 500);
    let prep = prepare_textarea("Hello World", &fm, 200, 60, Some(40), 0);
    assert_eq!(prep.font_size, 36);
    assert_eq!(prep.lines.len(), 1);
    assert_eq!(prep.block_height, 36);
    let width: u64 = prep.lines[0].iter().map(|(_, w)| *w as u64).sum();
    assert!(width <= 200);
    assert!(prep.font_size <= 40);
}

#[test]
fn fit_respects_the_cap() {
    let fm = uniform_font(1000, 500);
    let prep = prepare_textarea("Hi", &fm, 1000, 1000, Some(25), 0);
    assert_eq!(prep.font_size, 25);
}

#[test]
fn fit_returns_the_wrapped_size_one_layout_when_nothing_fits() {
    // 16 em per character: even at size 1 each character is 16 px wide in a
    // 10 px region, so nothing fits. The size-1 wrapped layout comes back
    // anyway: one overwide character per line, with its real measured width,
    // line height and block height.
    let fm = uniform_font(100, 1600);
    let prep = prepare_textarea("xxxx", &fm, 10, 10, None, 0);
    assert_eq!(prep.font_size, 1);
    assert_eq!(prep.lines.len(), 4);
    for line in &prep.lines {
        assert_eq!(line.len(), 1);
        assert_eq!(line[0].0.text, chars("x"));
        assert_eq!(line[0].1, 16);
    }
    // Line height at size 1 is ceil(100 / 100) = 1; no spacing.
    assert_eq!(prep.spaced_line_height, 1);
    assert_eq!(prep.block_height, 4);
}

#[test]
fn fitted_size_grows_with_the_region() {
    let fm = uniform_font(1000, 500);
    let mut last = 0u32;
    for (w, h) in [(50u32, 20u32), (100, 30), (200, 60), (400, 120), (800, 240)] {
        let prep = prepare_textarea("Hello World", &fm, w, h, Some(200), 10);
        assert!(prep.font_size >= last);
        last = prep.font_size;
    }
}

#[test]
fn fitted_size_grows_with_height_under_a_loose_cap() {
    // The effective cap is the region height here, so growing the height
    // widens the searched range as well.
    let fm = uniform_font(1000, 500);
    let small = prepare_textarea("Hello World", &fm, 300, 20, None, 0);
    let large = prepare_textarea("Hello World", &fm, 300, 50, None, 0);
    assert!(small.font_size <= large.font_size);
}

/// A font with a few specific advances over a wide default.
fn varied_font() -> FontMetrics {
    FontMetrics {
        units_per_em: 2048,
        line_height_units: 2400,
        advances: vec![(' ', 512), ('i', 600), ('W', 2048), ('i', 9999)],
        default_advance: 1100,
    }
}

#[test]
fn first_advance_entry_wins() {
    let fm = varied_font();
    // 'i' is listed twice; the first entry counts.
    assert_eq!(fm.advance('i'), 600);
    assert_eq!(fm.advance('q'), 1100);
}

#[test]
fn fitted_size_grows_with_the_region_for_a_varied_font() {
    let fm = varied_font();
    let mut last = 0u32;
    for (w, h) in [(40u32, 30u32), (80, 40), (160, 80), (320, 160), (640, 320)] {
        let prep = prepare_textarea("Wide Wit\nnarrow", &fm, w, h, Some(500), 25);
        assert!(prep.font_size >= last);
        last = prep.font_size;
    }
}

#[test]
fn carriage_return_before_newline_is_dropped() {
    let fm = uniform_font(100, 50);
    let lines = wrap_text("ab\r\ncd", &fm, 10, 1000);
    assert_eq!(lines.len(), 2);
    assert_eq!(lines[0][0].0.text, chars("ab"));
    assert_eq!(lines[1][0].0.text, chars("cd"));
}

#[test]
fn trailing_newline_opens_no_extra_line() {
    let fm = uniform_font(100, 50);
    let lines = wrap_text("ab\n", &fm, 10, 1000);
    assert_eq!(lines.len(), 1);
}

#[test]
fn whole_string_measure_rounds_less_than_per_character() {
    let fm = uniform_font(1000, 333);
    // Three characters measured one by one: 3 * ceil(3.33) = 12; measured as
    // one string: ceil(9.99) = 10.
    let per_char: u64 = 3 * fm.char_width_px('a', 10) as u64;
    assert_eq!(per_char, 12);
    assert_eq!(fm.measure_text_width(&chars("aaa"), 10), 10);
}

#[test]
fn line_spacing_raises_the_block() {
    let fm = uniform_font(1000, 500);
    // Two lines of "aaaa" at budget 20 px, size 10: each line is 4 chars?
    // 5 px per char at size 10: 4 chars fit in 20 px.
    let tight = prepare_textarea("aaaaaaaa", &fm, 20, 100, Some(10), 0);
    let spaced = prepare_textarea("aaaaaaaa", &fm, 20, 100, Some(10), 50);
    assert_eq!(tight.font_size, 10);
    assert_eq!(spaced.font_size, 10);
    assert_eq!(tight.lines.len(), 2);
    assert_eq!(spaced.lines.len(), 2);
    // spaced line height: ceil(10 * 150 / 100) = 15; block = 15*2 - 5 = 25.
    assert_eq!(tight.spaced_line_height, 10);
    assert_eq!(tight.block_height, 20);
    assert_eq!(spaced.spaced_line_height, 15);
    assert_eq!(spaced.block_height, 25);
}
