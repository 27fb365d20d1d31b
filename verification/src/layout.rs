//! Alignment and paint planning.
//!
//! Painting is planned as a list of text draw commands. Every piece of text
//! is drawn twice: once in solid black displaced by the shadow offset, then
//! once in its resolved color at the nominal position — the two commands
//! stand next to each other in the plan. Lines are placed top to bottom from
//! the block's vertical start; once the cursor reaches the region's bottom
//! edge, the remaining lines are dropped silently. Within a line, runs are
//! painted left to right, the cursor advancing by each run's measured width;
//! runs with no characters are skipped. A renderer executing the plan draws
//! each command's text at 1.3 times the command's font size, the intentional
//! enlargement relative to the size used for measuring.

use vstd::prelude::*;
use crate::color::{black_spec, resolve_color, Color};
use crate::data_model::{HorizontalAlign, TextAreaConfig, VerticalAlign};
use crate::fit::{block_height_of, prepare_textarea, size_cap, spaced_line_height_of};
use crate::metrics::{FontMetrics, MAX_TEXT_LEN};
use crate::wrap::{line_total_width, line_view, lines_view, wrap_text_spec};

verus! {

/// One planned text draw: `text` at `(x, y)`, at `font_size`, in `color`.
pub struct TextDraw {
    /// The characters to draw.
    pub text: Vec<char>,
    /// Horizontal position of the text's left edge.
    pub x: i32,
    /// Vertical position of the text's top edge.
    pub y: i32,
    /// The nominal font size; rendered at 1.3 times this value.
    pub font_size: u32,
    /// The resolved color.
    pub color: Color,
}

/// The view of one draw command.
pub open spec fn draw_view(d: TextDraw) -> (Seq<char>, int, int, nat, Color) {
    (d.text@, d.x as int, d.y as int, d.font_size as nat, d.color)
}

/// The view of a whole plan.
pub open spec fn plan_view(cmds: Seq<TextDraw>) -> Seq<(Seq<char>, int, int, nat, Color)> {
    cmds.map_values(|d: TextDraw| draw_view(d))
}

/// Where a line of width `lw` starts horizontally in a region `[x1, x1 + w)`.
pub open spec fn line_x_spec(align: HorizontalAlign, x1: int, w: int, lw: int) -> int {
    match align {
        HorizontalAlign::Left => x1,
        HorizontalAlign::Center => if w >= lw {
            x1 + (w - lw) / 2
        } else {
            x1 - (lw - w) / 2
        },
        HorizontalAlign::Right => x1 + w - lw,
    }
}

/// Where a block of height `bh` starts vertically in a region `[y1, y1 + h)`.
pub open spec fn block_y_spec(valign: VerticalAlign, y1: int, h: int, bh: int) -> int {
    match valign {
        VerticalAlign::Top => y1,
        VerticalAlign::Middle => if h >= bh {
            y1 + (h - bh) / 2
        } else {
            y1 - (bh - h) / 2
        },
        VerticalAlign::Bottom => y1 + h - bh,
    }
}

/// Horizontal start of one line. With `align == Right`, the line of width
/// `lw` ends exactly at the region's right edge: it starts at `x1 + w - lw`.
pub fn line_x(align: HorizontalAlign, x1: i32, w: u32, lw: u64) -> (r: i32)
    requires
        -100000000 <= x1 <= 100000000,
        1 <= w <= 1000000,
        lw <= 100000000,
    ensures
        r == line_x_spec(align, x1 as int, w as int, lw as int),
        align == HorizontalAlign::Right ==> r == x1 + w - lw,
        r + lw <= x1 + w || r + lw <= x1 + lw,
        r >= x1 - lw,
{
    match align {
        HorizontalAlign::Left => x1,
        HorizontalAlign::Center => {
            if w as u64 >= lw {
                x1 + (((w as u64 - lw) / 2) as i32)
            } else {
                x1 - (((lw - w as u64) / 2) as i32)
            }
        },
        HorizontalAlign::Right => x1 + w as i32 - (lw as i32),
    }
}

/// Vertical start of the line block.
pub fn block_y(valign: VerticalAlign, y1: i32, h: u32, bh: u32) -> (r: i32)
    requires
        -100000000 <= y1 <= 100000000,
        1 <= h <= 1000000,
        bh <= 400000000,
    ensures
        r == block_y_spec(valign, y1 as int, h as int, bh as int),
        y1 - bh <= r,
        r <= y1 + h,
{
    match valign {
        VerticalAlign::Top => y1,
        VerticalAlign::Middle => {
            if h >= bh {
                y1 + (((h - bh) / 2) as i32)
            } else {
                y1 - (((bh - h) / 2) as i32)
            }
        },
        VerticalAlign::Bottom => y1 + h as i32 - bh as i32,
    }
}

/// The pair of commands one piece of text expands to: its black shadow at the
/// offset position first, the text itself second.
pub open spec fn shadow_pair(
    text: Seq<char>,
    x: int,
    y: int,
    size: nat,
    color: Color,
    dx: int,
    dy: int,
) -> Seq<(Seq<char>, int, int, nat, Color)> {
    seq![(text, x + dx, y + dy, size, black_spec()), (text, x, y, size, color)]
}

/// The color of a run: the highlight override if the run is highlighted and
/// one is configured, the normal color otherwise.
pub open spec fn run_color(hl: bool, normal: Color, highlight: Option<Color>) -> Color {
    if hl && highlight is Some {
        highlight->0
    } else {
        normal
    }
}

/// The commands of one line: runs left to right, empty runs skipped, the
/// cursor advancing by each run's measured width.
pub open spec fn plan_line_spec(
    runs: Seq<(Seq<char>, bool, nat)>,
    x: int,
    y: int,
    size: nat,
    normal: Color,
    highlight: Option<Color>,
    dx: int,
    dy: int,
) -> Seq<(Seq<char>, int, int, nat, Color)>
    decreases runs.len(),
{
    if runs.len() == 0 {
        Seq::empty()
    } else if runs[0].0.len() == 0 {
        plan_line_spec(runs.drop_first(), x, y, size, normal, highlight, dx, dy)
    } else {
        shadow_pair(runs[0].0, x, y, size, run_color(runs[0].1, normal, highlight), dx, dy)
            + plan_line_spec(
            runs.drop_first(),
            x + runs[0].2,
            y,
            size,
            normal,
            highlight,
            dx,
            dy,
        )
    }
}

/// The commands of a block of lines from cursor `y` down: after each line the
/// cursor advances by the spaced line height, and the lines after the first
/// cursor position at or past `y2` are dropped.
pub open spec fn plan_lines_spec(
    lines: Seq<Seq<(Seq<char>, bool, nat)>>,
    align: HorizontalAlign,
    x1: int,
    w: int,
    y2: int,
    spaced: nat,
    y: int,
    size: nat,
    normal: Color,
    highlight: Option<Color>,
    dx: int,
    dy: int,
) -> Seq<(Seq<char>, int, int, nat, Color)>
    decreases lines.len(),
{
    if lines.len() == 0 {
        Seq::empty()
    } else {
        let lw = line_total_width(lines[0]);
        let x = line_x_spec(align, x1, w, lw as int);
        let head = plan_line_spec(lines[0], x, y, size, normal, highlight, dx, dy);
        if y + spaced >= y2 {
            head
        } else {
            head + plan_lines_spec(
                lines.drop_first(),
                align,
                x1,
                w,
                y2,
                spaced,
                y + spaced,
                size,
                normal,
                highlight,
                dx,
                dy,
            )
        }
    }
}

/// The full paint plan of the caption region: the fitter's chosen layout,
/// aligned and colored, shadows included.
pub open spec fn textarea_plan(
    fm: FontMetrics,
    text: Seq<char>,
    cfg: TextAreaConfig,
    primary: Color,
) -> Seq<(Seq<char>, int, int, nat, Color)> {
    let w = cfg.size[0] as nat;
    let h = cfg.size[1] as nat;
    let size = crate::fit::fitted_font_size(
        fm,
        text,
        w,
        h,
        size_cap(cfg.max_font_size, cfg.size[1]) as nat,
        cfg.line_spacing as nat,
    );
    let lines = wrap_text_spec(fm, text, size, w);
    let spaced = spaced_line_height_of(fm.line_height(size), cfg.line_spacing as nat);
    let block = block_height_of(fm.line_height(size), cfg.line_spacing as nat, lines.len());
    let normal = resolve_color(cfg.font_color, primary);
    let highlight = match cfg.highlight {
        Some(ci) => Some(resolve_color(ci, primary)),
        None => None,
    };
    let x1 = cfg.position[0] as int;
    let y1 = cfg.position[1] as int;
    let y0 = block_y_spec(cfg.valign, y1, h as int, block);
    plan_lines_spec(
        lines,
        cfg.align,
        x1,
        w as int,
        y1 + h,
        spaced,
        y0,
        size,
        normal,
        highlight,
        cfg.shadow_offset.0 as int,
        cfg.shadow_offset.1 as int,
    )
}

/// Fit the caption into the region and plan its painting.
pub fn plan_textarea(text: &str, fm: &FontMetrics, config: &TextAreaConfig, primary: Color) -> (r:
    Vec<TextDraw>)
    requires
        fm.valid(),
        config.valid(),
        text@.len() <= MAX_TEXT_LEN,
    ensures
        plan_view(r@) == textarea_plan(*fm, text@, *config, primary),
{
    let x1 = config.position[0];
    let y1 = config.position[1];
    let w = config.size[0];
    let h = config.size[1];
    let y2: i32 = y1 + (h as i32);
    let prep = prepare_textarea(text, fm, w, h, config.max_font_size, config.line_spacing);
    let normal = config.font_color.to_rgba(primary);
    let highlight: Option<Color> = match &config.highlight {
        Some(ci) => Some(ci.to_rgba(primary)),
        None => None,
    };
    proof {
        crate::fit::lemma_fit_search_props(
            *fm,
            text@,
            w as nat,
            h as nat,
            config.line_spacing as nat,
            1,
            size_cap(config.max_font_size, h) as int,
            None,
        );
        let k = crate::fit::fitted_font_size(
            *fm,
            text@,
            w as nat,
            h as nat,
            size_cap(config.max_font_size, h) as nat,
            config.line_spacing as nat,
        );
        assert(1 <= k <= 1000000);
        crate::metrics::lemma_scale_bounded(fm, fm.line_height_units as nat, k, 1);
        assert(fm.line_height(k) <= 16000000);
        crate::fit::lemma_spacing_bounds(fm.line_height(k), config.line_spacing as nat);
        crate::wrap::lemma_wrap_text_within(*fm, text@, k, w as nat);
    }
    let spaced = prep.spaced_line_height;
    proof {
        assert(prep.block_height <= 400000000);
        assert(spaced <= 200000000);
    }
    let y0 = block_y(config.valign, y1, h, prep.block_height);
    let ghost lv = lines_view(prep.lines@);
    let ghost gsize = prep.font_size as nat;
    let dx = config.shadow_offset.0;
    let dy = config.shadow_offset.1;
    let n = prep.lines.len();
    let mut cmds: Vec<TextDraw> = Vec::new();
    let mut y: i32 = y0;
    let mut go = true;
    let mut i: usize = 0;
    proof {
        assert(lv.skip(0) =~= lv);
    }
    while i < n && go
        invariant
            fm.valid(),
            config.valid(),
            n == prep.lines@.len(),
            i <= n,
            lv == lines_view(prep.lines@),
            x1 == config.position[0],
            y1 == config.position[1],
            w == config.size[0],
            h == config.size[1],
            y2 == y1 + h,
            dx == config.shadow_offset.0,
            dy == config.shadow_offset.1,
            gsize == prep.font_size as nat,
            spaced == prep.spaced_line_height,
            spaced <= 200000000,
            forall|j: int| 0 <= j < lv.len() ==> line_total_width(#[trigger] lv[j]) <= 17000000,
            y1 - 400000000 <= y <= y2,
            go ==> plan_view(cmds@) + plan_lines_spec(
                lv.skip(i as int),
                config.align,
                x1 as int,
                w as int,
                y2 as int,
                spaced as nat,
                y as int,
                gsize,
                normal,
                highlight,
                dx as int,
                dy as int,
            ) =~= textarea_plan(*fm, text@, *config, primary),
            !go ==> plan_view(cmds@) =~= textarea_plan(*fm, text@, *config, primary),
        decreases n - i,
    {
        let line = &prep.lines[i];
        let ghost rv = lv[i as int];
        proof {
            assert(rv == line_view(line@));
            assert(lv.skip(i as int)[0] == rv);
            assert(lv.skip(i as int).drop_first() =~= lv.skip(i + 1));
        }
        let lw = crate::fit::line_width_sum(line);
        let x0 = line_x(config.align, x1, w, lw);
        let ghost tail = if y + spaced >= y2 {
            Seq::<(Seq<char>, int, int, nat, Color)>::empty()
        } else {
            plan_lines_spec(
                lv.skip(i + 1),
                config.align,
                x1 as int,
                w as int,
                y2 as int,
                spaced as nat,
                y + spaced,
                gsize,
                normal,
                highlight,
                dx as int,
                dy as int,
            )
        };
        proof {
            assert(plan_view(cmds@) + plan_line_spec(
                rv,
                x0 as int,
                y as int,
                gsize,
                normal,
                highlight,
                dx as int,
                dy as int,
            ) + tail =~= textarea_plan(*fm, text@, *config, primary));
            assert(rv.skip(0) =~= rv);
        }
        let mut x: i32 = x0;
        let m = line.len();
        let mut j: usize = 0;
        while j < m
            invariant
                m == line@.len(),
                j <= m,
                rv == line_view(line@),
                gsize == prep.font_size as nat,
                dx == config.shadow_offset.0,
                dy == config.shadow_offset.1,
                config.valid(),
                -200000000 <= x,
                x + line_total_width(rv.skip(j as int)) <= 200000000,
                -600000000 <= y <= 200000000,
                plan_view(cmds@) + plan_line_spec(
                    rv.skip(j as int),
                    x as int,
                    y as int,
                    gsize,
                    normal,
                    highlight,
                    dx as int,
                    dy as int,
                ) + tail =~= textarea_plan(*fm, text@, *config, primary),
            decreases m - j,
        {
            proof {
                assert(rv.skip(j as int)[0] == rv[j as int]);
                assert(rv.skip(j as int).drop_first() =~= rv.skip(j + 1));
                assert(rv[j as int] == (line@[j as int].0.text@, line@[j as int].0.is_highlighted,
                    line@[j as int].1 as nat));
                assert(line_total_width(rv.skip(j as int)) == rv[j as int].2 + line_total_width(
                    rv.skip(j + 1),
                ));
            }
            let seg = &line[j].0;
            let width = line[j].1;
            if seg.text.len() > 0 {
                let shadow = TextDraw {
                    text: clone_chars(&seg.text),
                    x: x + dx,
                    y: y + dy,
                    font_size: prep.font_size,
                    color: crate::color::black(),
                };
                let color = if seg.is_highlighted && highlight.is_some() {
                    match highlight {
                        Some(c) => c,
                        None => normal,
                    }
                } else {
                    normal
                };
                let main = TextDraw {
                    text: clone_chars(&seg.text),
                    x,
                    y,
                    font_size: prep.font_size,
                    color,
                };
                let ghost old_cmds = cmds@;
                cmds.push(shadow);
                cmds.push(main);
                proof {
                    assert(color == run_color(rv[j as int].1, normal, highlight));
                    assert(plan_view(cmds@) =~= plan_view(old_cmds) + shadow_pair(
                        seg.text@,
                        x as int,
                        y as int,
                        gsize,
                        color,
                        dx as int,
                        dy as int,
                    ));
                }
                x = x + (width as i32);
            }
            j = j + 1;
        }
        proof {
            assert(rv.skip(m as int) =~= Seq::<(Seq<char>, bool, nat)>::empty());
            assert(plan_view(cmds@) + tail =~= textarea_plan(*fm, text@, *config, primary));
        }
        let ynext_ok = (y as i64) + (spaced as i64) < (y2 as i64);
        if ynext_ok {
            y = y + (spaced as i32);
        } else {
            go = false;
        }
        i = i + 1;
    }
    proof {
        if go {
            assert(lv.skip(n as int) =~= Seq::<Seq<(Seq<char>, bool, nat)>>::empty());
        }
        assert(plan_view(cmds@) =~= textarea_plan(*fm, text@, *config, primary));
    }
    cmds
}

/// Copy the characters of a run.
fn clone_chars(v: &Vec<char>) -> (r: Vec<char>)
    ensures
        r@ == v@,
{
    let mut r: Vec<char> = Vec::new();
    let n = v.len();
    let mut i: usize = 0;
    while i < n
        invariant
            n == v@.len(),
            i <= n,
            r@ == v@.take(i as int),
        decreases n - i,
    {
        r.push(v[i]);
        proof {
            assert(v@.take(i as int).push(v@[i as int]) =~= v@.take(i + 1));
        }
        i = i + 1;
    }
    proof {
        assert(v@.take(n as int) =~= v@);
    }
    r
}

/// The plan of one fixed text object: nothing for empty text, else the
/// shadow pair at the declared position with the fixed shadow offset (2, 2).
pub open spec fn object_text_plan(
    text: Seq<char>,
    x: int,
    y: int,
    size: nat,
    ci: crate::color::ColorInput,
    primary: Color,
) -> Seq<(Seq<char>, int, int, nat, Color)> {
    if text.len() == 0 {
        Seq::empty()
    } else {
        shadow_pair(text, x, y, size, resolve_color(ci, primary), 2, 2)
    }
}

/// Plan one fixed text object of a profile.
pub fn plan_object_text(
    text: &str,
    position: [i32; 2],
    font_color: &crate::color::ColorInput,
    font_size: u32,
    primary: Color,
) -> (r: Vec<TextDraw>)
    requires
        -100000000 <= position[0] <= 100000000,
        -100000000 <= position[1] <= 100000000,
    ensures
        plan_view(r@) == object_text_plan(
            text@,
            position[0] as int,
            position[1] as int,
            font_size as nat,
            *font_color,
            primary,
        ),
{
    let mut cmds: Vec<TextDraw> = Vec::new();
    let chars = crate::text::str_chars(text);
    if chars.len() == 0 {
        proof {
            assert(plan_view(cmds@) =~= Seq::<(Seq<char>, int, int, nat, Color)>::empty());
        }
        return cmds;
    }
    let color = font_color.to_rgba(primary);
    let shadow = TextDraw {
        text: clone_chars(&chars),
        x: position[0] + 2,
        y: position[1] + 2,
        font_size,
        color: crate::color::black(),
    };
    let main = TextDraw { text: chars, x: position[0], y: position[1], font_size, color };
    cmds.push(shadow);
    cmds.push(main);
    proof {
        assert(plan_view(cmds@) =~= shadow_pair(
            text@,
            position[0] as int,
            position[1] as int,
            font_size as nat,
            color,
            2,
            2,
        ));
    }
    cmds
}

} // verus!
