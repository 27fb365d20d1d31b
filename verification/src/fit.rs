//! Font-size fitting.
//!
//! The fitter binary-searches the integer font sizes in `[1, cap]` (capped by
//! the region height) for the largest size whose wrapped line block fits the
//! region. A candidate size is feasible when the widest wrapped line is within
//! the region width and the block height is within the region height; the
//! block height is `spaced_line_height * line_count - spacing_gap`, with
//! `spaced_line_height = ceil(line_height * (100 + spacing) / 100)` and
//! `spacing_gap = ceil(line_height * spacing / 100)` (spacing is given in
//! hundredths). A feasible midpoint is recorded as the new best and raises the
//! lower bound; an infeasible one lowers the upper bound. If no size at all
//! is feasible, the size-1 wrapped layout is returned all the same — it
//! overflows the region, and painting drops lines at the bottom edge — so
//! the caller always has something to paint.

use vstd::prelude::*;
use crate::metrics::{ceil_div, FontMetrics, MAX_TEXT_LEN};
use crate::segment::TextSegment;
use crate::wrap::{
    line_total_width, line_view, lines_view, max_line_width, wrap_text, wrap_text_spec, MAX_REGION,
};

verus! {

/// Largest line-spacing value (in hundredths) the fitter accepts.
pub const MAX_SPACING: u32 = 1000;

/// Line height with the fractional inter-line gap added, rounded up:
/// `ceil(lh * (100 + spacing) / 100)`.
pub open spec fn spaced_line_height_of(lh: nat, spacing: nat) -> nat {
    ceil_div(lh * (100 + spacing as int), 100) as nat
}

/// The extra gap one line of spacing adds: `ceil(lh * spacing / 100)`.
pub open spec fn spacing_gap_of(lh: nat, spacing: nat) -> nat {
    ceil_div(lh * (spacing as int), 100) as nat
}

/// Vertical extent of `n` lines: every line takes a spaced line height, minus
/// the trailing gap after the last line.
pub open spec fn block_height_of(lh: nat, spacing: nat, n: nat) -> int {
    spaced_line_height_of(lh, spacing) * n - spacing_gap_of(lh, spacing)
}

/// Whether font size `size` fits `text` into a `width x height` region.
pub open spec fn feasible(
    fm: FontMetrics,
    text: Seq<char>,
    size: nat,
    width: nat,
    height: nat,
    spacing: nat,
) -> bool {
    let lines = wrap_text_spec(fm, text, size, width);
    &&& max_line_width(lines) <= width
    &&& block_height_of(fm.line_height(size), spacing, lines.len()) <= height
}

/// The binary search over `[lo, hi]`, carrying the best feasible size found.
pub open spec fn fit_search(
    fm: FontMetrics,
    text: Seq<char>,
    width: nat,
    height: nat,
    spacing: nat,
    lo: int,
    hi: int,
    best: Option<nat>,
) -> Option<nat>
    decreases hi + 1 - lo,
{
    if lo > hi {
        best
    } else {
        let mid = lo + (hi - lo) / 2;
        if feasible(fm, text, mid as nat, width, height, spacing) {
            fit_search(fm, text, width, height, spacing, mid + 1, hi, Some(mid as nat))
        } else {
            fit_search(fm, text, width, height, spacing, lo, mid - 1, best)
        }
    }
}

/// The size cap: the configured maximum, itself capped by the region height.
pub open spec fn size_cap(max_font_size: Option<u32>, height: u32) -> u32 {
    match max_font_size {
        Some(c) => if c <= height {
            c
        } else {
            height
        },
        None => height,
    }
}

/// The size the fitter settles on, if any size at all was found feasible.
pub open spec fn chosen_size(
    fm: FontMetrics,
    text: Seq<char>,
    width: nat,
    height: nat,
    cap: nat,
    spacing: nat,
) -> Option<nat> {
    fit_search(fm, text, width, height, spacing, 1, cap as int, None)
}

/// The chosen feasible layout of a caption.
pub struct PreparedTextarea {
    /// The chosen font size (1 when nothing fits).
    pub font_size: u32,
    /// The wrapped lines at that size, runs with their measured widths.
    pub lines: Vec<Vec<(TextSegment, u32)>>,
    /// Line height with the inter-line gap added.
    pub spaced_line_height: u32,
    /// Vertical extent of the whole block.
    pub block_height: u32,
}

/// Whatever the search returns is feasible, lies in the searched range, and
/// is at least the best carried in.
pub proof fn lemma_fit_search_props(
    fm: FontMetrics,
    text: Seq<char>,
    width: nat,
    height: nat,
    spacing: nat,
    lo: int,
    hi: int,
    best: Option<nat>,
)
    requires
        1 <= lo,
        best is Some ==> feasible(fm, text, best->0, width, height, spacing) && 1 <= best->0 < lo,
    ensures
        ({
            let r = fit_search(fm, text, width, height, spacing, lo, hi, best);
            &&& r is Some ==> feasible(fm, text, r->0, width, height, spacing)
            &&& r is Some ==> 1 <= r->0 && (r->0 <= hi || (best is Some && r->0 == best->0))
            &&& best is Some ==> r is Some && best->0 <= r->0
            &&& r == best || (r is Some && lo <= r->0 <= hi)
        }),
    decreases hi + 1 - lo,
{
    if lo > hi {
    } else {
        let mid = lo + (hi - lo) / 2;
        if feasible(fm, text, mid as nat, width, height, spacing) {
            lemma_fit_search_props(fm, text, width, height, spacing, mid + 1, hi, Some(mid as nat));
        } else {
            lemma_fit_search_props(fm, text, width, height, spacing, lo, mid - 1, best);
        }
    }
}

/// Search the largest feasible font size and wrap the caption at it.
pub fn prepare_textarea(
    text: &str,
    fm: &FontMetrics,
    region_width: u32,
    region_height: u32,
    max_font_size: Option<u32>,
    line_spacing: u32,
) -> (r: PreparedTextarea)
    requires
        fm.valid(),
        1 <= region_width <= MAX_REGION,
        1 <= region_height <= MAX_REGION,
        line_spacing <= MAX_SPACING,
        text@.len() <= MAX_TEXT_LEN,
    ensures
        ({
            let k = fitted_font_size(
                *fm,
                text@,
                region_width as nat,
                region_height as nat,
                size_cap(max_font_size, region_height) as nat,
                line_spacing as nat,
            );
            &&& r.font_size == k
            &&& lines_view(r.lines@) == wrap_text_spec(*fm, text@, k, region_width as nat)
            &&& r.spaced_line_height == spaced_line_height_of(
                fm.line_height(k),
                line_spacing as nat,
            )
            &&& r.block_height == block_height_of(
                fm.line_height(k),
                line_spacing as nat,
                wrap_text_spec(*fm, text@, k, region_width as nat).len(),
            )
            &&& chosen_size(
                *fm,
                text@,
                region_width as nat,
                region_height as nat,
                size_cap(max_font_size, region_height) as nat,
                line_spacing as nat,
            ) is Some ==> feasible(
                *fm,
                text@,
                k,
                region_width as nat,
                region_height as nat,
                line_spacing as nat,
            )
        }),
        1 <= r.font_size,
        r.font_size <= size_cap(max_font_size, region_height) || r.font_size == 1,
        r.block_height <= 400000000,
{
    let ghost gw = region_width as nat;
    let ghost gh = region_height as nat;
    let ghost gsp = line_spacing as nat;
    let cap = match max_font_size {
        Some(c) => if c <= region_height {
            c
        } else {
            region_height
        },
        None => region_height,
    };
    let mut lo: u32 = 1;
    let mut hi: u32 = cap;
    let mut found = false;
    let mut best_size: u32 = 1;
    let mut best_spaced: u32 = 1;
    let mut best_block: u32 = 1;
    let mut best_lines: Vec<Vec<(TextSegment, u32)>> = Vec::new();
    while lo <= hi
        invariant
            fm.valid(),
            1 <= region_width <= MAX_REGION,
            1 <= region_height <= MAX_REGION,
            line_spacing <= MAX_SPACING,
            text@.len() <= MAX_TEXT_LEN,
            gw == region_width as nat,
            gh == region_height as nat,
            gsp == line_spacing as nat,
            1 <= lo,
            hi <= cap,
            cap == size_cap(max_font_size, region_height),
            cap <= region_height,
            fit_search(
                *fm,
                text@,
                gw,
                gh,
                gsp,
                lo as int,
                hi as int,
                if found {
                    Some(best_size as nat)
                } else {
                    None
                },
            ) == chosen_size(*fm, text@, gw, gh, cap as nat, gsp),
            found ==> {
                &&& 1 <= best_size < lo
                &&& best_size <= cap
                &&& feasible(*fm, text@, best_size as nat, gw, gh, gsp)
                &&& lines_view(best_lines@) == wrap_text_spec(*fm, text@, best_size as nat, gw)
                &&& best_spaced == spaced_line_height_of(fm.line_height(best_size as nat), gsp)
                &&& best_block == block_height_of(
                    fm.line_height(best_size as nat),
                    gsp,
                    wrap_text_spec(*fm, text@, best_size as nat, gw).len(),
                )
            },
        decreases hi + 1 - lo,
    {
        let mid = lo + (hi - lo) / 2;
        let ghost gmid = mid as nat;
        let lines = wrap_text(text, fm, mid, region_width);
        let lh = fm.line_height_px(mid);
        proof {
            assert((lh as int) * (100 + line_spacing as int) <= 17600000000000int)
                by (nonlinear_arith)
                requires
                    lh <= 16000000,
                    line_spacing <= 1000,
            ;
            assert((lh as int) * (line_spacing as int) <= 16000000000int) by (nonlinear_arith)
                requires
                    lh <= 16000000,
                    line_spacing <= 1000,
            ;
        }
        let spaced64: u64 = ((lh as u64) * (100 + line_spacing as u64) + 99) / 100;
        let gap64: u64 = ((lh as u64) * (line_spacing as u64) + 99) / 100;
        proof {
            assert(spaced64 == spaced_line_height_of(fm.line_height(gmid), gsp));
            assert(gap64 == spacing_gap_of(fm.line_height(gmid), gsp));
            lemma_spacing_bounds(fm.line_height(gmid), gsp);
        }
        let width_max = lines_max_width(&lines, Ghost(*fm), Ghost(text@), Ghost(gmid), Ghost(gw));
        let count = lines.len();
        proof {
            crate::wrap::lemma_wrap_text_nonempty(*fm, text@, gmid, gw);
            assert(count >= 1);
            assert((spaced64 as int) * (count as int) >= (spaced64 as int) * 1 && (
            spaced64 as int) * (count as int)
                <= 340282366920938463463374607431768211455int) by (nonlinear_arith)
                requires
                    1 <= count <= 18446744073709551615u64,
                    0 <= spaced64 <= 18446744073709551615u64,
            ;
        }
        let total: u128 = (spaced64 as u128) * (count as u128) - (gap64 as u128);
        proof {
            assert(total == block_height_of(fm.line_height(gmid), gsp, count as nat));
        }
        let fits = width_max <= region_width as u64 && total <= region_height as u128;
        proof {
            assert(fits == feasible(*fm, text@, gmid, gw, gh, gsp));
        }
        if fits {
            best_size = mid;
            best_lines = lines;
            best_spaced = spaced64 as u32;
            best_block = total as u32;
            found = true;
            lo = mid + 1;
        } else {
            hi = mid - 1;
        }
    }
    proof {
        lemma_fit_search_props(*fm, text@, gw, gh, gsp, lo as int, hi as int, if found {
            Some(best_size as nat)
        } else {
            Option::<nat>::None
        });
    }
    if found {
        return PreparedTextarea {
            font_size: best_size,
            lines: best_lines,
            spaced_line_height: best_spaced,
            block_height: best_block,
        };
    }
    // Nothing fits, not even size 1: return the size-1 wrapped layout all the
    // same, so the caller always has a renderable block (it will overflow the
    // region, and painting drops lines at the bottom edge).
    let lines = wrap_text(text, fm, 1, region_width);
    let lh = fm.line_height_px(1);
    proof {
        assert((lh as int) * (100 + line_spacing as int) <= 17600000int) by (nonlinear_arith)
            requires
                lh <= 16,
                line_spacing <= 1000,
        ;
        assert((lh as int) * (line_spacing as int) <= 16000int) by (nonlinear_arith)
            requires
                lh <= 16,
                line_spacing <= 1000,
        ;
    }
    let spaced64: u64 = ((lh as u64) * (100 + line_spacing as u64) + 99) / 100;
    let gap64: u64 = ((lh as u64) * (line_spacing as u64) + 99) / 100;
    let count = lines.len();
    proof {
        assert(spaced64 == spaced_line_height_of(fm.line_height(1), gsp));
        assert(gap64 == spacing_gap_of(fm.line_height(1), gsp));
        lemma_spacing_bounds(fm.line_height(1), gsp);
        crate::wrap::lemma_wrap_text_nonempty(*fm, text@, 1, gw);
        crate::wrap::lemma_wrap_text_count(*fm, text@, 1, gw);
        assert(count >= 1);
        assert(count <= 2000001);
        assert(spaced64 <= 11 * 16 + 1);
        assert((spaced64 as int) * (count as int) >= (spaced64 as int) * 1 && (spaced64 as int)
            * (count as int) <= 177 * 2000001) by (nonlinear_arith)
            requires
                1 <= count <= 2000001,
                0 <= spaced64 <= 177,
        ;
    }
    let total: u128 = (spaced64 as u128) * (count as u128) - (gap64 as u128);
    proof {
        assert(total == block_height_of(fm.line_height(1), gsp, count as nat));
    }
    PreparedTextarea {
        font_size: 1,
        lines,
        spaced_line_height: spaced64 as u32,
        block_height: total as u32,
    }
}

// ---------------------------------------------------------------------------
// Monotonicity of feasibility and of the chosen size
// ---------------------------------------------------------------------------
/// The spaced line height is exactly the line height plus the spacing gap.
pub proof fn lemma_spaced_split(lh: nat, spacing: nat)
    ensures
        spaced_line_height_of(lh, spacing) == lh + spacing_gap_of(lh, spacing),
{
    vstd::arithmetic::div_mod::lemma_hoist_over_denominator(
        lh * (spacing as int) + 99,
        lh as int,
        100,
    );
    assert(lh * (spacing as int) + 99 + (lh as int) * 100 == lh * (100 + spacing as int) + 99)
        by (nonlinear_arith);
    assert((lh * (spacing as int) + 99) / 100 >= 0) by (nonlinear_arith)
        requires
            lh >= 0,
            spacing >= 0,
    ;
}

/// Line height and spacing gap grow with the font size.
proof fn lemma_heights_mono(fm: FontMetrics, ka: nat, kb: nat, spacing: nat)
    requires
        fm.valid(),
        kb <= ka,
    ensures
        fm.line_height(kb) <= fm.line_height(ka),
        spacing_gap_of(fm.line_height(kb), spacing) <= spacing_gap_of(fm.line_height(ka), spacing),
{
    let u = fm.units_per_em as int;
    let h = fm.line_height_units as int;
    assert(h * (kb as int) <= h * (ka as int)) by (nonlinear_arith)
        requires
            h >= 0,
            0 <= kb <= ka,
    ;
    crate::metrics::lemma_ceil_div_mono(h * (kb as int), h * (ka as int), u);
    let la = fm.line_height(ka) as int;
    let lb = fm.line_height(kb) as int;
    assert(lb * (spacing as int) <= la * (spacing as int)) by (nonlinear_arith)
        requires
            0 <= lb <= la,
            spacing >= 0,
    ;
    crate::metrics::lemma_ceil_div_mono(lb * (spacing as int), la * (spacing as int), 100);
}

/// Wrapping at a smaller size into a wider region keeps every line within the
/// region and yields no more lines, paragraph by paragraph.
proof fn lemma_paras_mono(
    fm: FontMetrics,
    ps: Seq<Seq<char>>,
    ka: nat,
    kb: nat,
    wa: nat,
    wb: nat,
)
    requires
        fm.valid(),
        kb <= ka,
        wa <= wb,
        max_line_width(crate::wrap::wrap_paras(fm, ps, ka, wa)) <= wa,
    ensures
        max_line_width(crate::wrap::wrap_paras(fm, ps, kb, wb)) <= wb,
        crate::wrap::wrap_paras(fm, ps, kb, wb).len() <= crate::wrap::wrap_paras(
            fm,
            ps,
            ka,
            wa,
        ).len(),
    decreases ps.len(),
{
    if ps.len() == 0 {
    } else {
        let p = ps[0];
        let heada = crate::wrap::wrap_paragraph_spec(fm, p, ka, wa);
        let headb = crate::wrap::wrap_paragraph_spec(fm, p, kb, wb);
        let resta = crate::wrap::wrap_paras(fm, ps.drop_first(), ka, wa);
        let restb = crate::wrap::wrap_paras(fm, ps.drop_first(), kb, wb);
        crate::wrap::lemma_max_line_width_concat(heada, resta);
        lemma_paras_mono(fm, ps.drop_first(), ka, kb, wa, wb);
        if p.len() == 0 {
            let line = crate::wrap::empty_line();
            assert(line[0] == (Seq::<char>::empty(), false, 0nat));
            assert(line.drop_first() =~= Seq::<(Seq<char>, bool, nat)>::empty());
            assert(line_total_width(line) == line[0].2 + line_total_width(line.drop_first()));
            assert(headb =~= seq![line]);
            assert(headb[0] == line);
            assert(headb.drop_first() =~= Seq::<Seq<(Seq<char>, bool, nat)>>::empty());
            assert(max_line_width(headb.drop_first()) == 0);
            assert(max_line_width(headb) == if line_total_width(headb[0]) >= max_line_width(
                headb.drop_first(),
            ) {
                line_total_width(headb[0])
            } else {
                max_line_width(headb.drop_first())
            });
        } else {
            let t = crate::wrap::tagged_of(p);
            crate::wrap::lemma_tagged_chars(p);
            assert forall|i: int| 0 <= i < t.len() implies crate::wrap::tag_width(
                fm,
                #[trigger] t[i],
                kb,
            ) <= wa by {
                crate::wrap::lemma_wrap_max_ge_char(fm, t, ka, wa, 0, i);
                crate::wrap::lemma_char_width_mono(fm, t[i].0, kb, ka);
            }
            crate::wrap::lemma_wrap_lines_max_le(fm, t, kb, wb, 0, wa);
            crate::wrap::lemma_wrap_count_mono2(fm, t, ka, kb, wa, wb, 0, 0);
        }
        crate::wrap::lemma_max_line_width_concat(headb, restb);
    }
}

/// Feasibility is monotone: a size that fits a region still fits at any
/// smaller size and in any larger region.
pub proof fn lemma_feasible_mono(
    fm: FontMetrics,
    text: Seq<char>,
    ka: nat,
    kb: nat,
    wa: nat,
    wb: nat,
    ha: nat,
    hb: nat,
    spacing: nat,
)
    requires
        fm.valid(),
        1 <= kb <= ka,
        wa <= wb,
        ha <= hb,
        feasible(fm, text, ka, wa, ha, spacing),
    ensures
        feasible(fm, text, kb, wb, hb, spacing),
{
    let ps = crate::wrap::split_lines(text);
    let linesa = wrap_text_spec(fm, text, ka, wa);
    let linesb = wrap_text_spec(fm, text, kb, wb);
    let la = fm.line_height(ka);
    let lb = fm.line_height(kb);
    let ga = spacing_gap_of(la, spacing);
    let gb = spacing_gap_of(lb, spacing);
    lemma_heights_mono(fm, ka, kb, spacing);
    lemma_spaced_split(la, spacing);
    lemma_spaced_split(lb, spacing);
    crate::wrap::lemma_wrap_text_nonempty(fm, text, ka, wa);
    crate::wrap::lemma_wrap_text_nonempty(fm, text, kb, wb);
    if ps.len() == 0 {
        let line = crate::wrap::empty_line();
        assert(line[0] == (Seq::<char>::empty(), false, 0nat));
        assert(line.drop_first() =~= Seq::<(Seq<char>, bool, nat)>::empty());
        assert(line_total_width(line) == line[0].2 + line_total_width(line.drop_first()));
        assert(linesb =~= seq![line]);
        assert(linesb[0] == line);
        assert(linesb.drop_first() =~= Seq::<Seq<(Seq<char>, bool, nat)>>::empty());
        assert(max_line_width(linesb.drop_first()) == 0);
        assert(max_line_width(linesb) == if line_total_width(linesb[0]) >= max_line_width(
            linesb.drop_first(),
        ) {
            line_total_width(linesb[0])
        } else {
            max_line_width(linesb.drop_first())
        });
        assert(linesa.len() == linesb.len());
    } else {
        lemma_paras_mono(fm, ps, ka, kb, wa, wb);
    }
    let na = linesa.len() as int;
    let nb = linesb.len() as int;
    assert(nb <= na);
    assert((lb + gb) * nb - gb <= (la + ga) * na - ga) by (nonlinear_arith)
        requires
            0 <= lb <= la,
            0 <= gb <= ga,
            1 <= nb <= na,
    ;
}

/// Any feasible size in the searched range is at most what the search finds.
pub proof fn lemma_fit_search_complete(
    fm: FontMetrics,
    text: Seq<char>,
    width: nat,
    height: nat,
    spacing: nat,
    lo: int,
    hi: int,
    best: Option<nat>,
    k: nat,
)
    requires
        fm.valid(),
        1 <= lo,
        best is Some ==> feasible(fm, text, best->0, width, height, spacing) && 1 <= best->0 < lo,
        lo <= k <= hi,
        feasible(fm, text, k, width, height, spacing),
    ensures
        ({
            let r = fit_search(fm, text, width, height, spacing, lo, hi, best);
            r is Some && k <= r->0
        }),
    decreases hi + 1 - lo,
{
    let mid = lo + (hi - lo) / 2;
    if feasible(fm, text, mid as nat, width, height, spacing) {
        lemma_fit_search_props(fm, text, width, height, spacing, mid + 1, hi, Some(mid as nat));
        if k > mid {
            lemma_fit_search_complete(
                fm,
                text,
                width,
                height,
                spacing,
                mid + 1,
                hi,
                Some(mid as nat),
                k,
            );
        }
    } else {
        if k >= mid {
            lemma_feasible_mono(fm, text, k, mid as nat, width, width, height, height, spacing);
            assert(false);
        }
        lemma_fit_search_complete(fm, text, width, height, spacing, lo, mid - 1, best, k);
    }
}

/// The size the fitter settles on, with the best-effort fallback of 1.
pub open spec fn fitted_font_size(
    fm: FontMetrics,
    text: Seq<char>,
    width: nat,
    height: nat,
    cap: nat,
    spacing: nat,
) -> nat {
    match chosen_size(fm, text, width, height, cap, spacing) {
        Some(k) => k,
        None => 1,
    }
}

/// The fitted font size never shrinks when the region grows: with the caption,
/// font, size cap and line spacing held fixed, enlarging the region's width
/// and height can only keep or raise the chosen size.
pub proof fn lemma_fitted_size_monotone(
    fm: FontMetrics,
    text: Seq<char>,
    wa: nat,
    ha: u32,
    wb: nat,
    hb: u32,
    max_font_size: Option<u32>,
    spacing: nat,
)
    requires
        fm.valid(),
        wa <= wb,
        ha <= hb,
    ensures
        fitted_font_size(
            fm,
            text,
            wa,
            ha as nat,
            size_cap(max_font_size, ha) as nat,
            spacing,
        ) <= fitted_font_size(
            fm,
            text,
            wb,
            hb as nat,
            size_cap(max_font_size, hb) as nat,
            spacing,
        ),
{
    let capa = size_cap(max_font_size, ha) as nat;
    let capb = size_cap(max_font_size, hb) as nat;
    assert(capa <= capb);
    let ra = chosen_size(fm, text, wa, ha as nat, capa, spacing);
    let rb = chosen_size(fm, text, wb, hb as nat, capb, spacing);
    lemma_fit_search_props(fm, text, wa, ha as nat, spacing, 1, capa as int, None);
    lemma_fit_search_props(fm, text, wb, hb as nat, spacing, 1, capb as int, None);
    if ra is Some {
        let k = ra->0;
        lemma_feasible_mono(fm, text, k, k, wa, wb, ha as nat, hb as nat, spacing);
        lemma_fit_search_complete(fm, text, wb, hb as nat, spacing, 1, capb as int, None, k);
    }
}

/// The spaced line height is at least the spacing gap, and both stay small.
pub proof fn lemma_spacing_bounds(lh: nat, spacing: nat)
    requires
        spacing <= MAX_SPACING,
    ensures
        spacing_gap_of(lh, spacing) <= spaced_line_height_of(lh, spacing),
        spaced_line_height_of(lh, spacing) <= 11 * lh + 1,
{
    assert(lh * (spacing as int) <= lh * (100 + spacing as int)) by (nonlinear_arith)
        requires
            lh >= 0,
            spacing >= 0,
    ;
    crate::metrics::lemma_ceil_div_mono(lh * (spacing as int), lh * (100 + spacing as int), 100);
    assert(lh * (100 + spacing as int) <= (11 * lh + 1) * 100) by (nonlinear_arith)
        requires
            lh >= 0,
            spacing <= 1000,
    ;
    crate::metrics::lemma_ceil_div_le_exact(lh * (100 + spacing as int), 11 * (lh as int) + 1, 100);
}

/// Sum of one line's recorded run widths.
pub fn line_width_sum(line: &Vec<(TextSegment, u32)>) -> (r: u64)
    requires
        line_total_width(line_view(line@)) < 0x8000000000000000,
    ensures
        r == line_total_width(line_view(line@)),
{
    let n = line.len();
    let mut acc: u64 = 0;
    let mut i: usize = 0;
    proof {
        assert(line_view(line@).skip(0) =~= line_view(line@));
        lemma_line_total_split(line_view(line@), 0);
    }
    while i < n
        invariant
            n == line@.len(),
            i <= n,
            acc == line_total_width(line_view(line@).take(i as int)),
            line_total_width(line_view(line@)) == acc + line_total_width(
                line_view(line@).skip(i as int),
            ),
            line_total_width(line_view(line@)) < 0x8000000000000000,
        decreases n - i,
    {
        proof {
            let lv = line_view(line@);
            assert(lv.skip(i as int)[0] == lv[i as int]);
            assert(lv.skip(i as int).drop_first() =~= lv.skip(i + 1));
            assert(lv[i as int].2 == line@[i as int].1 as nat);
            assert(lv.take(i + 1).drop_last() =~= lv.take(i as int));
            lemma_line_total_push(lv.take(i as int), lv[i as int]);
            assert(lv.take(i as int).push(lv[i as int]) =~= lv.take(i + 1));
        }
        acc = acc + (line[i].1 as u64);
        i = i + 1;
    }
    proof {
        assert(line_view(line@).skip(n as int) =~= Seq::<(Seq<char>, bool, nat)>::empty());
        assert(line_view(line@).take(n as int) =~= line_view(line@));
    }
    acc
}

proof fn lemma_line_total_push(line: Seq<(Seq<char>, bool, nat)>, x: (Seq<char>, bool, nat))
    ensures
        line_total_width(line.push(x)) == line_total_width(line) + x.2,
    decreases line.len(),
{
    if line.len() == 0 {
        assert(line.push(x)[0] == x);
        assert(line.push(x).drop_first() =~= Seq::<(Seq<char>, bool, nat)>::empty());
        assert(line_total_width(line.push(x)) == x.2 + line_total_width(
            Seq::<(Seq<char>, bool, nat)>::empty(),
        ));
    } else {
        assert(line.push(x)[0] == line[0]);
        assert(line.push(x).drop_first() =~= line.drop_first().push(x));
        lemma_line_total_push(line.drop_first(), x);
        assert(line_total_width(line.push(x)) == line[0].2 + line_total_width(
            line.drop_first().push(x),
        ));
    }
}

proof fn lemma_line_total_split(line: Seq<(Seq<char>, bool, nat)>, i: int)
    requires
        0 <= i <= line.len(),
    ensures
        line_total_width(line) == line_total_width(line.take(i)) + line_total_width(line.skip(i)),
    decreases i,
{
    if i == 0 {
        assert(line.take(0) =~= Seq::<(Seq<char>, bool, nat)>::empty());
        assert(line.skip(0) =~= line);
    } else {
        lemma_line_total_split(line.drop_first(), i - 1);
        assert(line.take(i)[0] == line[0]);
        assert(line.take(i).drop_first() =~= line.drop_first().take(i - 1));
        assert(line.skip(i) =~= line.drop_first().skip(i - 1));
    }
}

/// Widest line of a wrapped caption, in pixels.
fn lines_max_width(
    lines: &Vec<Vec<(TextSegment, u32)>>,
    Ghost(fm): Ghost<FontMetrics>,
    Ghost(text): Ghost<Seq<char>>,
    Ghost(size): Ghost<nat>,
    Ghost(maxw): Ghost<nat>,
) -> (r: u64)
    requires
        fm.valid(),
        maxw <= MAX_REGION,
        size <= 1000000,
        lines_view(lines@) == wrap_text_spec(fm, text, size, maxw),
    ensures
        r == max_line_width(lines_view(lines@)),
{
    let n = lines.len();
    let mut best: u64 = 0;
    let mut i: usize = 0;
    proof {
        crate::wrap::lemma_wrap_text_within(fm, text, size, maxw);
    }
    while i < n
        invariant
            fm.valid(),
            maxw <= MAX_REGION,
            lines_view(lines@) == wrap_text_spec(fm, text, size, maxw),
            n == lines@.len(),
            i <= n,
            size <= 1000000,
            best == max_line_width(lines_view(lines@).take(i as int)),
            best <= MAX_REGION + crate::metrics::MAX_ADVANCE_EM * size,
        decreases n - i,
    {
        proof {
            crate::wrap::lemma_wrap_text_within(fm, text, size, maxw);
            let lsv = lines_view(lines@);
            assert(lsv[i as int] == line_view(lines@[i as int]@));
            assert(line_total_width(lsv[i as int]) <= maxw + crate::metrics::MAX_ADVANCE_EM
                * size);
        }
        let w = line_width_sum(&lines[i]);
        if w > best {
            best = w;
        }
        proof {
            let lsv = lines_view(lines@);
            lemma_max_take_push(lsv, i as int);
        }
        i = i + 1;
    }
    proof {
        assert(lines_view(lines@).take(n as int) =~= lines_view(lines@));
    }
    best
}

proof fn lemma_max_take_push(lines: Seq<Seq<(Seq<char>, bool, nat)>>, i: int)
    requires
        0 <= i < lines.len(),
    ensures
        max_line_width(lines.take(i + 1)) == if line_total_width(lines[i]) > max_line_width(
            lines.take(i),
        ) {
            line_total_width(lines[i])
        } else {
            max_line_width(lines.take(i))
        },
{
    lemma_max_push(lines.take(i), lines[i]);
    assert(lines.take(i).push(lines[i]) =~= lines.take(i + 1));
}

proof fn lemma_max_push(lines: Seq<Seq<(Seq<char>, bool, nat)>>, x: Seq<(Seq<char>, bool, nat)>)
    ensures
        max_line_width(lines.push(x)) == if line_total_width(x) > max_line_width(lines) {
            line_total_width(x)
        } else {
            max_line_width(lines)
        },
    decreases lines.len(),
{
    if lines.len() == 0 {
        assert(lines.push(x)[0] == x);
        assert(lines.push(x).drop_first() =~= Seq::<Seq<(Seq<char>, bool, nat)>>::empty());
        assert(max_line_width(Seq::<Seq<(Seq<char>, bool, nat)>>::empty()) == 0);
        assert(max_line_width(lines.push(x)) == if line_total_width(x) >= 0 {
            line_total_width(x)
        } else {
            0
        });
    } else {
        assert(lines.push(x)[0] == lines[0]);
        assert(lines.push(x).drop_first() =~= lines.drop_first().push(x));
        lemma_max_push(lines.drop_first(), x);
    }
}

} // verus!
