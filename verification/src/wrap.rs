//! Greedy, highlight-preserving line wrapping.
//!
//! A caption is split into paragraphs at newline characters (a `\r` directly
//! before the newline is dropped). Each paragraph is segmented
//! (`crate::segment`), its characters are tagged with their highlight state,
//! and a strictly greedy pass packs characters into lines: a character whose
//! width still fits is appended, otherwise it starts a new line. A character
//! wider than the whole line budget is still placed, alone, so no character
//! is ever dropped. Within a line, maximal stretches of equal highlight state
//! become runs; each run is measured as one string (`FontMetrics::text_width`).
//! A blank paragraph yields one line holding a single empty zero-width run.

use vstd::prelude::*;
use crate::metrics::{ceil_div, FontMetrics, MAX_FONT_SIZE, MAX_TEXT_LEN};
use crate::segment::{
    concat_segs, parse_segments, parse_chars, segs_view, seg_view, TextSegment,
};
use crate::text::str_chars;

verus! {

/// Largest line budget (in pixels) the wrapper accepts.
pub const MAX_REGION: u32 = 1000000;

// ---------------------------------------------------------------------------
// Paragraph splitting
// ---------------------------------------------------------------------------
/// `cur` with one trailing carriage return removed, if it ends in one.
pub open spec fn strip_cr(cur: Seq<char>) -> Seq<char> {
    if cur.len() > 0 && cur.last() == '\r' {
        cur.drop_last()
    } else {
        cur
    }
}

/// The paragraphs of `rest`, `cur` being the paragraph accumulated so far.
pub open spec fn split_lines_from(cur: Seq<char>, rest: Seq<char>) -> Seq<Seq<char>>
    decreases rest.len(),
{
    if rest.len() == 0 {
        if cur.len() == 0 {
            Seq::empty()
        } else {
            seq![cur]
        }
    } else if rest[0] == '\n' {
        seq![strip_cr(cur)] + split_lines_from(Seq::empty(), rest.drop_first())
    } else {
        split_lines_from(cur.push(rest[0]), rest.drop_first())
    }
}

/// The paragraphs of `s`: split at `\n`, dropping a `\r` just before it; a
/// trailing newline does not open a final empty paragraph.
pub open spec fn split_lines(s: Seq<char>) -> Seq<Seq<char>> {
    split_lines_from(Seq::empty(), s)
}

// ---------------------------------------------------------------------------
// Greedy break positions over tagged characters
// ---------------------------------------------------------------------------
/// Pixel width of the tagged character `tc` at pixel size `size`.
pub open spec fn tag_width(fm: FontMetrics, tc: (char, bool), size: nat) -> nat {
    fm.char_width(tc.0, size)
}

/// Sum of the character widths of `t[a..b)`.
pub open spec fn wsum(fm: FontMetrics, t: Seq<(char, bool)>, size: nat, a: int, b: int) -> nat
    decreases b - a,
{
    if a >= b || a < 0 || b > t.len() {
        0
    } else {
        tag_width(fm, t[a], size) + wsum(fm, t, size, a + 1, b)
    }
}

/// Greedy scan: the first index `j' >= j` at which a line holding width `acc`
/// cannot also take `t[j']`, or `t.len()` if the rest fits.
pub open spec fn scan_break(
    fm: FontMetrics,
    t: Seq<(char, bool)>,
    size: nat,
    maxw: nat,
    j: int,
    acc: nat,
) -> int
    decreases t.len() - j,
{
    if j < 0 || j >= t.len() {
        t.len() as int
    } else if acc + tag_width(fm, t[j], size) > maxw {
        j
    } else {
        scan_break(fm, t, size, maxw, j + 1, acc + tag_width(fm, t[j], size))
    }
}

/// End (exclusive) of the greedy line starting at `s`: the first character is
/// always taken, later ones while the accumulated width stays within `maxw`.
pub open spec fn next_break(
    fm: FontMetrics,
    t: Seq<(char, bool)>,
    size: nat,
    maxw: nat,
    s: int,
) -> int {
    scan_break(fm, t, size, maxw, s + 1, tag_width(fm, t[s], size))
}

/// The scan never moves backwards and stays within the sequence.
pub proof fn lemma_scan_break_bounds(
    fm: FontMetrics,
    t: Seq<(char, bool)>,
    size: nat,
    maxw: nat,
    j: int,
    acc: nat,
)
    requires
        0 <= j <= t.len(),
    ensures
        j <= scan_break(fm, t, size, maxw, j, acc) <= t.len(),
    decreases t.len() - j,
{
    if j < t.len() && !(acc + tag_width(fm, t[j], size) > maxw) {
        lemma_scan_break_bounds(fm, t, size, maxw, j + 1, acc + tag_width(fm, t[j], size));
    }
}

/// A greedy line is never empty and never runs past the end.
pub proof fn lemma_next_break_bounds(
    fm: FontMetrics,
    t: Seq<(char, bool)>,
    size: nat,
    maxw: nat,
    s: int,
)
    requires
        0 <= s < t.len(),
    ensures
        s < next_break(fm, t, size, maxw, s) <= t.len(),
{
    lemma_scan_break_bounds(fm, t, size, maxw, s + 1, tag_width(fm, t[s], size));
}

// ---------------------------------------------------------------------------
// Runs of one line
// ---------------------------------------------------------------------------
/// Maximal stretches of equal highlight state in `t`, the run accumulated so
/// far holding `cur` (highlighted iff `flag`).
pub open spec fn group_from(t: Seq<(char, bool)>, cur: Seq<char>, flag: bool) -> Seq<
    (Seq<char>, bool),
>
    decreases t.len(),
{
    if t.len() == 0 {
        if cur.len() == 0 {
            Seq::empty()
        } else {
            seq![(cur, flag)]
        }
    } else if t[0].1 == flag {
        group_from(t.drop_first(), cur.push(t[0].0), flag)
    } else if cur.len() == 0 {
        group_from(t.drop_first(), seq![t[0].0], t[0].1)
    } else {
        seq![(cur, flag)] + group_from(t.drop_first(), seq![t[0].0], t[0].1)
    }
}

/// The runs of one line: grouping starts out with an empty, unhighlighted run.
pub open spec fn group_runs(t: Seq<(char, bool)>) -> Seq<(Seq<char>, bool)> {
    group_from(t, Seq::empty(), false)
}

/// A run with its measured pixel width.
pub open spec fn run_view(fm: FontMetrics, g: (Seq<char>, bool), size: nat) -> (
    Seq<char>,
    bool,
    nat,
) {
    (g.0, g.1, fm.text_width(g.0, size))
}

/// All runs of one line, each with its measured pixel width.
pub open spec fn line_of(fm: FontMetrics, t: Seq<(char, bool)>, size: nat) -> Seq<
    (Seq<char>, bool, nat),
> {
    group_runs(t).map_values(|g: (Seq<char>, bool)| run_view(fm, g, size))
}

// ---------------------------------------------------------------------------
// Whole paragraphs and whole captions
// ---------------------------------------------------------------------------
/// The line a blank paragraph yields: one empty, unhighlighted, zero-width run.
pub open spec fn empty_line() -> Seq<(Seq<char>, bool, nat)> {
    seq![(Seq::<char>::empty(), false, 0nat)]
}

/// The greedy lines of `t[s..)`.
pub open spec fn wrap_lines(
    fm: FontMetrics,
    t: Seq<(char, bool)>,
    size: nat,
    maxw: nat,
    s: int,
) -> Seq<Seq<(Seq<char>, bool, nat)>>
    decreases t.len() - s,
{
    if s < 0 || s >= t.len() {
        Seq::empty()
    } else {
        let e = next_break(fm, t, size, maxw, s);
        proof {
            lemma_next_break_bounds(fm, t, size, maxw, s);
        }
        seq![line_of(fm, t.subrange(s, e), size)] + wrap_lines(fm, t, size, maxw, e)
    }
}

/// The characters of paragraph `p`, tagged with their highlight state.
pub open spec fn tagged_of(p: Seq<char>) -> Seq<(char, bool)> {
    flatten_segs(parse_segments(p))
}

/// The characters of the segments `segs`, each tagged with its segment's flag.
pub open spec fn flatten_segs(segs: Seq<(Seq<char>, bool)>) -> Seq<(char, bool)>
    decreases segs.len(),
{
    if segs.len() == 0 {
        Seq::empty()
    } else {
        tag_seg(segs[0]) + flatten_segs(segs.drop_first())
    }
}

/// The characters of one segment, tagged with the segment's flag.
pub open spec fn tag_seg(seg: (Seq<char>, bool)) -> Seq<(char, bool)> {
    seg.0.map_values(|c: char| (c, seg.1))
}

/// The wrapped lines of one paragraph.
pub open spec fn wrap_paragraph_spec(fm: FontMetrics, p: Seq<char>, size: nat, maxw: nat) -> Seq<
    Seq<(Seq<char>, bool, nat)>,
> {
    if p.len() == 0 {
        seq![empty_line()]
    } else {
        wrap_lines(fm, tagged_of(p), size, maxw, 0)
    }
}

/// The wrapped lines of the paragraphs `ps`, concatenated.
pub open spec fn wrap_paras(fm: FontMetrics, ps: Seq<Seq<char>>, size: nat, maxw: nat) -> Seq<
    Seq<(Seq<char>, bool, nat)>,
>
    decreases ps.len(),
{
    if ps.len() == 0 {
        Seq::empty()
    } else {
        wrap_paragraph_spec(fm, ps[0], size, maxw) + wrap_paras(fm, ps.drop_first(), size, maxw)
    }
}

/// The wrapped lines of the whole caption `s`: its paragraphs in order, and a
/// single blank line if `s` is empty.
pub open spec fn wrap_text_spec(fm: FontMetrics, s: Seq<char>, size: nat, maxw: nat) -> Seq<
    Seq<(Seq<char>, bool, nat)>,
> {
    let ps = split_lines(s);
    if ps.len() == 0 {
        seq![empty_line()]
    } else {
        wrap_paras(fm, ps, size, maxw)
    }
}

/// The view of one wrapped line: each run's characters, flag and width.
pub open spec fn line_view(line: Seq<(TextSegment, u32)>) -> Seq<(Seq<char>, bool, nat)> {
    line.map_values(|r: (TextSegment, u32)| (r.0.text@, r.0.is_highlighted, r.1 as nat))
}

/// The view of a whole wrapped result.
pub open spec fn lines_view(lines: Seq<Vec<(TextSegment, u32)>>) -> Seq<
    Seq<(Seq<char>, bool, nat)>,
> {
    lines.map_values(|line: Vec<(TextSegment, u32)>| line_view(line@))
}

/// Sum of the measured run widths of one line.
pub open spec fn line_total_width(line: Seq<(Seq<char>, bool, nat)>) -> nat
    decreases line.len(),
{
    if line.len() == 0 {
        0
    } else {
        line[0].2 + line_total_width(line.drop_first())
    }
}

/// Number of characters on one line.
pub open spec fn line_char_count(line: Seq<(Seq<char>, bool, nat)>) -> nat
    decreases line.len(),
{
    if line.len() == 0 {
        0
    } else {
        line[0].0.len() + line_char_count(line.drop_first())
    }
}

/// Largest `line_total_width` over all of `lines`.
pub open spec fn max_line_width(lines: Seq<Seq<(Seq<char>, bool, nat)>>) -> nat
    decreases lines.len(),
{
    if lines.len() == 0 {
        0
    } else {
        let rest = max_line_width(lines.drop_first());
        if line_total_width(lines[0]) >= rest {
            line_total_width(lines[0])
        } else {
            rest
        }
    }
}

// ---------------------------------------------------------------------------
// Width sums of character sequences
// ---------------------------------------------------------------------------
/// The characters of a tagged sequence, untagged.
pub open spec fn chars_of(t: Seq<(char, bool)>) -> Seq<char> {
    t.map_values(|tc: (char, bool)| tc.0)
}

/// Sum of the individual character widths of `chars`.
pub open spec fn sum_char_widths(fm: FontMetrics, chars: Seq<char>, size: nat) -> nat
    decreases chars.len(),
{
    if chars.len() == 0 {
        0
    } else {
        fm.char_width(chars[0], size) + sum_char_widths(fm, chars.drop_first(), size)
    }
}

/// A width sum over `[a, b)` splits at any midpoint.
pub proof fn lemma_wsum_split(
    fm: FontMetrics,
    t: Seq<(char, bool)>,
    size: nat,
    a: int,
    m: int,
    b: int,
)
    requires
        0 <= a <= m <= b <= t.len(),
    ensures
        wsum(fm, t, size, a, b) == wsum(fm, t, size, a, m) + wsum(fm, t, size, m, b),
    decreases m - a,
{
    if a < m {
        lemma_wsum_split(fm, t, size, a + 1, m, b);
    }
}

/// Summing the widths of the characters in `t[a..b)` equals the width sum
/// over that interval.
pub proof fn lemma_scw_eq_wsum(fm: FontMetrics, t: Seq<(char, bool)>, size: nat, a: int, b: int)
    requires
        0 <= a <= b <= t.len(),
    ensures
        sum_char_widths(fm, chars_of(t.subrange(a, b)), size) == wsum(fm, t, size, a, b),
    decreases b - a,
{
    if a < b {
        assert(chars_of(t.subrange(a, b)).drop_first() =~= chars_of(t.subrange(a + 1, b)));
        lemma_scw_eq_wsum(fm, t, size, a + 1, b);
    }
}

/// A string measured as one run is at most as wide as its characters
/// measured one by one.
pub proof fn lemma_text_width_le_scw(fm: FontMetrics, chars: Seq<char>, size: nat)
    requires
        fm.valid(),
    ensures
        fm.text_width(chars, size) <= sum_char_widths(fm, chars, size),
    decreases chars.len(),
{
    let u = fm.units_per_em as int;
    if chars.len() == 0 {
        assert(fm.sum_advances(chars) == 0);
        crate::metrics::lemma_ceil_div_le_exact(0, 0, u);
        assert(fm.text_width(chars, size) == fm.scale_units(0, size));
        assert(fm.scale_units(0, size) == ceil_div(0 * (size as int), u) as nat);
        assert(0 * (size as int) == 0);
        assert(fm.text_width(chars, size) == ceil_div(0, u) as nat);
        assert(sum_char_widths(fm, chars, size) == 0);
        assert(fm.text_width(chars, size) <= sum_char_widths(fm, chars, size));
    } else {
        let a = fm.advance_of(chars[0]) as int;
        let b = fm.sum_advances(chars.drop_first()) as int;
        let k = size as int;
        lemma_text_width_le_scw(fm, chars.drop_first(), size);
        assert(fm.sum_advances(chars) == a + b);
        assert((a + b) * k == a * k + b * k) by (nonlinear_arith);
        assert(a * k >= 0 && b * k >= 0) by (nonlinear_arith)
            requires
                a >= 0,
                b >= 0,
                k >= 0,
        ;
        crate::metrics::lemma_ceil_div_subadd(a * k, b * k, u);
        assert(fm.text_width(chars, size) == ceil_div((a + b) * k, u));
        assert(fm.char_width(chars[0], size) == ceil_div(a * k, u));
        assert(fm.text_width(chars.drop_first(), size) == ceil_div(b * k, u));
        assert(sum_char_widths(fm, chars, size) == fm.char_width(chars[0], size)
            + sum_char_widths(fm, chars.drop_first(), size));
    }
}

// ---------------------------------------------------------------------------
// Executable wrapping
// ---------------------------------------------------------------------------
/// The views of a sequence of character paragraphs.
pub open spec fn paras_view(ps: Seq<Vec<char>>) -> Seq<Seq<char>> {
    ps.map_values(|p: Vec<char>| p@)
}

/// Split `chars` into paragraphs at newline characters.
pub fn split_paragraphs(chars: &Vec<char>) -> (r: Vec<Vec<char>>)
    ensures
        paras_view(r@) == split_lines(chars@),
{
    let n = chars.len();
    let mut out: Vec<Vec<char>> = Vec::new();
    let mut cur: Vec<char> = Vec::new();
    let mut i: usize = 0;
    proof {
        assert(chars@.skip(0) =~= chars@);
    }
    while i < n
        invariant
            n == chars@.len(),
            i <= n,
            paras_view(out@) + split_lines_from(cur@, chars@.skip(i as int)) =~= split_lines(
                chars@,
            ),
        decreases n - i,
    {
        let c = chars[i];
        proof {
            assert(chars@.skip(i as int)[0] == chars@[i as int]);
            assert(chars@.skip(i as int).drop_first() =~= chars@.skip(i + 1));
        }
        if c == '\n' {
            let ghost old_out = out@;
            let ghost old_cur = cur@;
            let mut para = cur;
            if para.len() > 0 && para[para.len() - 1] == '\r' {
                para.pop();
                proof {
                    assert(para@ =~= strip_cr(old_cur));
                }
            }
            out.push(para);
            cur = Vec::new();
            proof {
                assert(paras_view(out@) =~= paras_view(old_out) + seq![strip_cr(old_cur)]);
            }
        } else {
            cur.push(c);
        }
        i = i + 1;
    }
    proof {
        assert(chars@.skip(n as int) =~= Seq::<char>::empty());
    }
    if cur.len() > 0 {
        let ghost old_out = out@;
        let ghost old_cur = cur@;
        out.push(cur);
        proof {
            assert(paras_view(out@) =~= paras_view(old_out) + seq![old_cur]);
        }
    }
    proof {
        assert(paras_view(out@) =~= split_lines(chars@));
    }
    out
}

/// Tag the characters of the parsed segments with their highlight state.
pub fn flatten_tagged(segs: &Vec<TextSegment>) -> (r: Vec<(char, bool)>)
    ensures
        r@ == flatten_segs(segs_view(segs@)),
{
    let n = segs.len();
    let mut out: Vec<(char, bool)> = Vec::new();
    let mut i: usize = 0;
    proof {
        assert(segs_view(segs@).skip(0) =~= segs_view(segs@));
    }
    while i < n
        invariant
            n == segs@.len(),
            i <= n,
            out@ + flatten_segs(segs_view(segs@).skip(i as int)) =~= flatten_segs(
                segs_view(segs@),
            ),
        decreases n - i,
    {
        let seg = &segs[i];
        let hl = seg.is_highlighted;
        let m = seg.text.len();
        let mut j: usize = 0;
        proof {
            assert(segs_view(segs@).skip(i as int)[0] == seg_view(segs@[i as int]));
            assert(segs_view(segs@).skip(i as int).drop_first() =~= segs_view(segs@).skip(i + 1));
        }
        while j < m
            invariant
                0 <= i < n,
                n == segs@.len(),
                j <= m,
                m == seg.text@.len(),
                seg == segs@[i as int],
                hl == seg.is_highlighted,
                out@ + tag_seg(seg_view(segs@[i as int])).skip(j as int) + flatten_segs(
                    segs_view(segs@).skip(i + 1),
                ) =~= flatten_segs(segs_view(segs@)),
            decreases m - j,
        {
            out.push((seg.text[j], hl));
            proof {
                assert(tag_seg(seg_view(segs@[i as int])).skip(j as int)[0] == (
                    seg.text@[j as int],
                    hl,
                ));
                assert(tag_seg(seg_view(segs@[i as int])).skip(j as int).drop_first()
                    =~= tag_seg(seg_view(segs@[i as int])).skip(j + 1));
                assert(out@ + tag_seg(seg_view(segs@[i as int])).skip(j + 1) + flatten_segs(
                    segs_view(segs@).skip(i + 1),
                ) =~= flatten_segs(segs_view(segs@)));
            }
            j = j + 1;
        }
        proof {
            assert(tag_seg(seg_view(segs@[i as int])).skip(m as int) =~= Seq::<(
                char,
                bool,
            )>::empty());
            assert(out@ + flatten_segs(segs_view(segs@).skip(i + 1)) =~= flatten_segs(
                segs_view(segs@),
            ));
        }
        i = i + 1;
    }
    proof {
        assert(segs_view(segs@).skip(n as int) =~= Seq::<(Seq<char>, bool)>::empty());
        assert(out@ =~= flatten_segs(segs_view(segs@)));
    }
    out
}

/// Wrap one paragraph of tagged characters into lines of measured runs.
pub fn wrap_tagged(fm: &FontMetrics, t: &Vec<(char, bool)>, size: u32, max_width: u32) -> (r: Vec<
    Vec<(TextSegment, u32)>,
>)
    requires
        fm.valid(),
        1 <= size <= MAX_FONT_SIZE,
        1 <= max_width <= MAX_REGION,
        t@.len() <= MAX_TEXT_LEN,
    ensures
        t@.len() == 0 ==> lines_view(r@) == seq![empty_line()],
        t@.len() > 0 ==> lines_view(r@) == wrap_lines(*fm, t@, size as nat, max_width as nat, 0),
{
    let n = t.len();
    let mut out: Vec<Vec<(TextSegment, u32)>> = Vec::new();
    if n == 0 {
        let mut line: Vec<(TextSegment, u32)> = Vec::new();
        line.push((TextSegment { text: Vec::new(), is_highlighted: false }, 0));
        out.push(line);
        proof {
            assert(line_view(line@) =~= empty_line());
            assert(lines_view(out@) =~= seq![empty_line()]);
        }
        return out;
    }
    let ghost gsize = size as nat;
    let ghost gmaxw = max_width as nat;
    let mut s: usize = 0;
    while s < n
        invariant
            fm.valid(),
            1 <= size <= MAX_FONT_SIZE,
            1 <= max_width <= MAX_REGION,
            gsize == size as nat,
            gmaxw == max_width as nat,
            n == t@.len() <= MAX_TEXT_LEN,
            s <= n,
            lines_view(out@) + wrap_lines(*fm, t@, gsize, gmaxw, s as int) =~= wrap_lines(
                *fm,
                t@,
                gsize,
                gmaxw,
                0,
            ),
        decreases n - s,
    {
        // Find the end of the greedy line starting at `s`.
        let w0 = fm.char_width_px(t[s].0, size);
        let mut acc: u64 = w0 as u64;
        let mut j: usize = s + 1;
        let mut stopped = false;
        proof {
            assert(wsum(*fm, t@, gsize, s as int, s + 1) == tag_width(*fm, t@[s as int], gsize)
                + wsum(*fm, t@, gsize, s + 1, s + 1));
        }
        while j < n && !stopped
            invariant
                fm.valid(),
                1 <= size <= MAX_FONT_SIZE,
                1 <= max_width <= MAX_REGION,
                gsize == size as nat,
                gmaxw == max_width as nat,
                n == t@.len(),
                s < n,
                s + 1 <= j <= n,
                acc == wsum(*fm, t@, gsize, s as int, j as int),
                acc <= max_width || acc == tag_width(*fm, t@[s as int], gsize),
                acc <= 17000000,
                !stopped ==> scan_break(*fm, t@, gsize, gmaxw, j as int, acc as nat) == next_break(
                    *fm,
                    t@,
                    gsize,
                    gmaxw,
                    s as int,
                ),
                stopped ==> j < n && next_break(*fm, t@, gsize, gmaxw, s as int) == j as int,
            decreases n - j, (if stopped { 0int } else { 1int }),
        {
            let wj = fm.char_width_px(t[j].0, size);
            if acc + (wj as u64) > max_width as u64 {
                stopped = true;
            } else {
                proof {
                    lemma_wsum_split(*fm, t@, gsize, s as int, j as int, j + 1);
                    assert(wsum(*fm, t@, gsize, j as int, j + 1) == tag_width(
                        *fm,
                        t@[j as int],
                        gsize,
                    ) + wsum(*fm, t@, gsize, j + 1, j + 1));
                }
                acc = acc + (wj as u64);
                j = j + 1;
            }
        }
        let e = j;
        proof {
            if !stopped {
                assert(e == n);
                assert(scan_break(*fm, t@, gsize, gmaxw, n as int, acc as nat) == n);
            }
            assert(next_break(*fm, t@, gsize, gmaxw, s as int) == e as int);
            assert(wsum(*fm, t@, gsize, s as int, e as int) == acc);
        }
        // Build the runs of the line `t[s..e)`.
        let ghost line_t = t@.subrange(s as int, e as int);
        let mut runs: Vec<(TextSegment, u32)> = Vec::new();
        let mut cur: Vec<char> = Vec::new();
        let mut flag: bool = false;
        let ghost mut run_start: int = s as int;
        let mut p: usize = s;
        proof {
            assert(line_t.subrange(0, line_t.len() as int) =~= line_t);
            assert(t@.subrange(p as int, e as int) =~= line_t);
        }
        while p < e
            invariant
                fm.valid(),
                1 <= size <= MAX_FONT_SIZE,
                1 <= max_width <= MAX_REGION,
                gsize == size as nat,
                gmaxw == max_width as nat,
                n == t@.len() <= MAX_TEXT_LEN,
                s <= p <= e <= n,
                s < e,
                line_t == t@.subrange(s as int, e as int),
                acc == wsum(*fm, t@, gsize, s as int, e as int),
                acc <= max_width || acc == tag_width(*fm, t@[s as int], gsize),
                acc <= 17000000,
                s as int <= run_start <= p,
                cur@ =~= chars_of(t@.subrange(run_start, p as int)),
                cur@.len() == 0 ==> run_start == p && p == s && flag == false,
                line_view(runs@) + group_from(
                    t@.subrange(p as int, e as int),
                    cur@,
                    flag,
                ).map_values(|g: (Seq<char>, bool)| run_view(*fm, g, gsize)) =~= line_of(
                    *fm,
                    line_t,
                    gsize,
                ),
            decreases e - p,
        {
            let c = t[p].0;
            let f = t[p].1;
            proof {
                assert(t@.subrange(p as int, e as int)[0] == t@[p as int]);
                assert(t@.subrange(p as int, e as int).drop_first() =~= t@.subrange(p + 1, e as int));
            }
            if f == flag {
                let ghost old_cur = cur@;
                cur.push(c);
                proof {
                    assert(cur@ =~= chars_of(t@.subrange(run_start, p + 1)));
                    assert(group_from(t@.subrange(p as int, e as int), old_cur, flag)
                        == group_from(t@.subrange(p + 1, e as int), cur@, flag));
                }
            } else if cur.len() == 0 {
                let ghost old_flag = flag;
                flag = f;
                cur.push(c);
                proof {
                    assert(cur@ =~= chars_of(t@.subrange(run_start, p + 1)));
                    assert(cur@ =~= seq![c]);
                    assert(group_from(
                        t@.subrange(p as int, e as int),
                        Seq::<char>::empty(),
                        old_flag,
                    ) == group_from(t@.subrange(p + 1, e as int), cur@, flag));
                }
            } else {
                let ghost old_runs = runs@;
                let ghost old_cur = cur@;
                let ghost old_flag = flag;
                let w = measure_run(fm, &cur, size, max_width, Ghost(t@), Ghost(run_start), Ghost(
                    p as int,
                ), Ghost(s as int), Ghost(e as int), Ghost(acc));
                let seg = TextSegment { text: cur, is_highlighted: flag };
                runs.push((seg, w));
                cur = Vec::new();
                cur.push(c);
                flag = f;
                proof {
                    run_start = p as int;
                    assert(cur@ =~= chars_of(t@.subrange(run_start, p + 1)));
                    assert(line_view(runs@) =~= line_view(old_runs) + seq![
                        (old_cur, old_flag, fm.text_width(old_cur, gsize)),
                    ]);
                    let tail = group_from(t@.subrange(p + 1, e as int), seq![c], f);
                    assert(group_from(t@.subrange(p as int, e as int), old_cur, old_flag) =~= seq![
                        (old_cur, old_flag),
                    ] + tail);
                    assert((seq![(old_cur, old_flag)] + tail).map_values(
                        |g: (Seq<char>, bool)| run_view(*fm, g, gsize),
                    ) =~= seq![run_view(*fm, (old_cur, old_flag), gsize)] + tail.map_values(
                        |g: (Seq<char>, bool)| run_view(*fm, g, gsize),
                    ));
                }
            }
            p = p + 1;
        }
        // Flush the final run of the line.
        proof {
            assert(t@.subrange(e as int, e as int) =~= Seq::<(char, bool)>::empty());
            assert(cur@.len() > 0);
        }
        let ghost old_runs = runs@;
        let ghost old_cur = cur@;
        let ghost old_flag = flag;
        let w = measure_run(fm, &cur, size, max_width, Ghost(t@), Ghost(run_start), Ghost(e as int),
            Ghost(s as int), Ghost(e as int), Ghost(acc));
        let seg = TextSegment { text: cur, is_highlighted: flag };
        runs.push((seg, w));
        proof {
            assert(group_from(Seq::<(char, bool)>::empty(), old_cur, old_flag) =~= seq![
                (old_cur, old_flag),
            ]);
            assert(line_view(runs@) =~= line_view(old_runs) + seq![
                (old_cur, old_flag, fm.text_width(old_cur, gsize)),
            ]);
            assert(line_view(runs@) =~= line_of(*fm, line_t, gsize));
        }
        let ghost old_out = out@;
        out.push(runs);
        proof {
            assert(lines_view(out@) =~= lines_view(old_out) + seq![line_of(*fm, line_t, gsize)]);
            lemma_next_break_bounds(*fm, t@, gsize, gmaxw, s as int);
        }
        s = e;
    }
    proof {
        assert(lines_view(out@) =~= wrap_lines(*fm, t@, gsize, gmaxw, 0));
    }
    out
}

// ---------------------------------------------------------------------------
// Properties of wrapped lines
// ---------------------------------------------------------------------------
/// Appending a character adds its width to the width sum.
pub proof fn lemma_scw_push(fm: FontMetrics, s: Seq<char>, c: char, size: nat)
    ensures
        sum_char_widths(fm, s.push(c), size) == sum_char_widths(fm, s, size) + fm.char_width(
            c,
            size,
        ),
    decreases s.len(),
{
    if s.len() == 0 {
        assert(s.push(c)[0] == c);
        assert(s.push(c).drop_first() =~= Seq::<char>::empty());
        assert(sum_char_widths(fm, s.push(c), size) == fm.char_width(c, size) + sum_char_widths(
            fm,
            Seq::<char>::empty(),
            size,
        ));
    } else {
        assert(s.push(c)[0] == s[0]);
        assert(s.push(c).drop_first() =~= s.drop_first().push(c));
        lemma_scw_push(fm, s.drop_first(), c, size);
        assert(sum_char_widths(fm, s.push(c), size) == fm.char_width(s[0], size) + sum_char_widths(
            fm,
            s.drop_first().push(c),
            size,
        ));
    }
}

/// The runs of a line hold exactly the line's characters, in order.
pub proof fn lemma_group_concat(t: Seq<(char, bool)>, cur: Seq<char>, flag: bool)
    ensures
        concat_segs(group_from(t, cur, flag)) =~= cur + chars_of(t),
    decreases t.len(),
{
    if t.len() == 0 {
        assert(chars_of(t) =~= Seq::<char>::empty());
        if cur.len() == 0 {
            assert(concat_segs(group_from(t, cur, flag)) =~= cur + chars_of(t));
        } else {
            let g = group_from(t, cur, flag);
            assert(g =~= seq![(cur, flag)]);
            assert(g[0] == (cur, flag));
            assert(g.drop_first() =~= Seq::<(Seq<char>, bool)>::empty());
            assert(concat_segs(g) == g[0].0 + concat_segs(g.drop_first()));
            assert(concat_segs(group_from(t, cur, flag)) =~= cur + chars_of(t));
        }
    } else {
        let c = t[0].0;
        assert(chars_of(t).drop_first() =~= chars_of(t.drop_first()));
        assert(chars_of(t)[0] == c);
        if t[0].1 == flag {
            lemma_group_concat(t.drop_first(), cur.push(c), flag);
            assert(group_from(t, cur, flag) == group_from(t.drop_first(), cur.push(c), flag));
            assert(cur.push(c) + chars_of(t.drop_first()) =~= cur + chars_of(t));
        } else if cur.len() == 0 {
            lemma_group_concat(t.drop_first(), seq![c], t[0].1);
            assert(group_from(t, cur, flag) == group_from(t.drop_first(), seq![c], t[0].1));
            assert(seq![c] + chars_of(t.drop_first()) =~= cur + chars_of(t));
        } else {
            lemma_group_concat(t.drop_first(), seq![c], t[0].1);
            let tail = group_from(t.drop_first(), seq![c], t[0].1);
            assert(group_from(t, cur, flag) == seq![(cur, flag)] + tail);
            assert((seq![(cur, flag)] + tail)[0] == (cur, flag));
            assert((seq![(cur, flag)] + tail).drop_first() =~= tail);
            assert(concat_segs(seq![(cur, flag)] + tail) == cur + concat_segs(tail));
            assert(cur + (seq![c] + chars_of(t.drop_first())) =~= cur + chars_of(t));
        }
    }
}

/// Each line holds as many characters as its runs together.
pub proof fn lemma_line_char_count(fm: FontMetrics, gs: Seq<(Seq<char>, bool)>, size: nat)
    ensures
        line_char_count(gs.map_values(|g: (Seq<char>, bool)| run_view(fm, g, size)))
            == concat_segs(gs).len(),
    decreases gs.len(),
{
    let line = gs.map_values(|g: (Seq<char>, bool)| run_view(fm, g, size));
    if gs.len() == 0 {
        assert(line.len() == 0);
    } else {
        lemma_line_char_count(fm, gs.drop_first(), size);
        assert(line.drop_first() =~= gs.drop_first().map_values(
            |g: (Seq<char>, bool)| run_view(fm, g, size),
        ));
        assert(line[0].0 == gs[0].0);
    }
}

/// The measured widths of a line's runs sum to no more than the character
/// widths of everything grouped.
pub proof fn lemma_group_total_le(
    fm: FontMetrics,
    t: Seq<(char, bool)>,
    cur: Seq<char>,
    flag: bool,
    size: nat,
)
    requires
        fm.valid(),
    ensures
        line_total_width(
            group_from(t, cur, flag).map_values(|g: (Seq<char>, bool)| run_view(fm, g, size)),
        ) <= sum_char_widths(fm, cur, size) + sum_char_widths(fm, chars_of(t), size),
    decreases t.len(),
{
    let f = |g: (Seq<char>, bool)| run_view(fm, g, size);
    if t.len() == 0 {
        assert(chars_of(t) =~= Seq::<char>::empty());
        if cur.len() == 0 {
            assert(group_from(t, cur, flag).map_values(f) =~= Seq::<(Seq<char>, bool, nat)>::empty());
        } else {
            let line = group_from(t, cur, flag).map_values(f);
            assert(line =~= seq![run_view(fm, (cur, flag), size)]);
            assert(line[0].2 == fm.text_width(cur, size));
            assert(line.drop_first() =~= Seq::<(Seq<char>, bool, nat)>::empty());
            assert(line_total_width(line) == line[0].2 + line_total_width(line.drop_first()));
            lemma_text_width_le_scw(fm, cur, size);
        }
    } else {
        let c = t[0].0;
        assert(chars_of(t).drop_first() =~= chars_of(t.drop_first()));
        assert(chars_of(t)[0] == c);
        assert(sum_char_widths(fm, chars_of(t), size) == fm.char_width(c, size) + sum_char_widths(
            fm,
            chars_of(t.drop_first()),
            size,
        ));
        if t[0].1 == flag {
            lemma_group_total_le(fm, t.drop_first(), cur.push(c), flag, size);
            assert(group_from(t, cur, flag) == group_from(t.drop_first(), cur.push(c), flag));
            lemma_scw_push(fm, cur, c, size);
        } else if cur.len() == 0 {
            lemma_group_total_le(fm, t.drop_first(), seq![c], t[0].1, size);
            assert(group_from(t, cur, flag) == group_from(t.drop_first(), seq![c], t[0].1));
            assert(sum_char_widths(fm, seq![c], size) == fm.char_width(c, size)
                + sum_char_widths(fm, Seq::<char>::empty(), size)) by {
                assert(seq![c][0] == c);
                assert(seq![c].drop_first() =~= Seq::<char>::empty());
            }
        } else {
            lemma_group_total_le(fm, t.drop_first(), seq![c], t[0].1, size);
            lemma_text_width_le_scw(fm, cur, size);
            let tail = group_from(t.drop_first(), seq![c], t[0].1);
            assert(group_from(t, cur, flag) == seq![(cur, flag)] + tail);
            assert((seq![(cur, flag)] + tail).map_values(f) =~= seq![run_view(fm, (cur, flag), size)]
                + tail.map_values(f));
            let line = (seq![(cur, flag)] + tail).map_values(f);
            assert(line[0].2 == fm.text_width(cur, size));
            assert(line.drop_first() =~= tail.map_values(f));
            assert(line_total_width(line) == line[0].2 + line_total_width(line.drop_first()));
            assert(sum_char_widths(fm, seq![c], size) == fm.char_width(c, size)
                + sum_char_widths(fm, Seq::<char>::empty(), size)) by {
                assert(seq![c][0] == c);
                assert(seq![c].drop_first() =~= Seq::<char>::empty());
            }
        }
    }
}

/// The width sum of a greedy line stays within the budget unless the line is
/// a single character.
pub proof fn lemma_wsum_next_break(
    fm: FontMetrics,
    t: Seq<(char, bool)>,
    size: nat,
    maxw: nat,
    s: int,
)
    requires
        0 <= s < t.len(),
    ensures
        wsum(fm, t, size, s, next_break(fm, t, size, maxw, s)) <= maxw || next_break(
            fm,
            t,
            size,
            maxw,
            s,
        ) == s + 1,
{
    let w0 = tag_width(fm, t[s], size);
    assert(wsum(fm, t, size, s, s + 1) == w0 + wsum(fm, t, size, s + 1, s + 1));
    if w0 > maxw {
        if s + 1 < t.len() {
            assert(scan_break(fm, t, size, maxw, s + 1, w0) == s + 1);
        } else {
            assert(next_break(fm, t, size, maxw, s) == t.len());
        }
    } else {
        lemma_scan_sum(fm, t, size, maxw, s, s + 1, w0);
    }
}

proof fn lemma_scan_sum(fm: FontMetrics, t: Seq<(char, bool)>, size: nat, maxw: nat, s: int, j: int, acc: nat)
    requires
        0 <= s <= j <= t.len(),
        acc == wsum(fm, t, size, s, j),
        acc <= maxw,
    ensures
        wsum(fm, t, size, s, scan_break(fm, t, size, maxw, j, acc)) <= maxw,
    decreases t.len() - j,
{
    if j >= t.len() {
    } else if acc + tag_width(fm, t[j], size) > maxw {
    } else {
        lemma_wsum_split(fm, t, size, s, j, j + 1);
        assert(wsum(fm, t, size, j, j + 1) == tag_width(fm, t[j], size) + wsum(
            fm,
            t,
            size,
            j + 1,
            j + 1,
        ));
        lemma_scan_sum(fm, t, size, maxw, s, j + 1, acc + tag_width(fm, t[j], size));
    }
}

/// One greedy line is within the budget, or is a single unbreakable character.
pub proof fn lemma_line_within(fm: FontMetrics, t: Seq<(char, bool)>, size: nat, maxw: nat, s: int)
    requires
        fm.valid(),
        0 <= s < t.len(),
    ensures
        ({
            let line = line_of(fm, t.subrange(s, next_break(fm, t, size, maxw, s)), size);
            &&& line_total_width(line) <= maxw || line_char_count(line) == 1
            &&& line_total_width(line) <= maxw + crate::metrics::MAX_ADVANCE_EM * size
        }),
{
    let e = next_break(fm, t, size, maxw, s);
    lemma_next_break_bounds(fm, t, size, maxw, s);
    let tl = t.subrange(s, e);
    let line = line_of(fm, tl, size);
    lemma_group_total_le(fm, tl, Seq::empty(), false, size);
    lemma_scw_eq_wsum(fm, t, size, s, e);
    lemma_wsum_next_break(fm, t, size, maxw, s);
    if wsum(fm, t, size, s, e) <= maxw {
        assert(line_total_width(line) <= maxw);
    } else {
        assert(e == s + 1);
        lemma_group_concat(tl, Seq::empty(), false);
        lemma_line_char_count(fm, group_runs(tl), size);
        assert(concat_segs(group_runs(tl)).len() == tl.len());
        assert(wsum(fm, t, size, s, e) == tag_width(fm, t[s], size) + wsum(fm, t, size, s + 1, e));
        crate::metrics::lemma_advance_bounded(&fm, t[s].0);
        crate::metrics::lemma_scale_bounded(&fm, fm.advance_of(t[s].0), size, 1);
        assert(tag_width(fm, t[s], size) <= crate::metrics::MAX_ADVANCE_EM * size);
    }
}

/// Every line of a wrapped paragraph is within the budget or is a single
/// unbreakable character.
pub proof fn lemma_wrap_lines_within(
    fm: FontMetrics,
    t: Seq<(char, bool)>,
    size: nat,
    maxw: nat,
    s: int,
)
    requires
        fm.valid(),
        0 <= s,
    ensures
        forall|i: int|
            0 <= i < wrap_lines(fm, t, size, maxw, s).len() ==> {
                let line = #[trigger] wrap_lines(fm, t, size, maxw, s)[i];
                &&& line_total_width(line) <= maxw || line_char_count(line) == 1
                &&& line_total_width(line) <= maxw + crate::metrics::MAX_ADVANCE_EM * size
            },
    decreases t.len() - s,
{
    if s < t.len() {
        let e = next_break(fm, t, size, maxw, s);
        lemma_next_break_bounds(fm, t, size, maxw, s);
        lemma_line_within(fm, t, size, maxw, s);
        lemma_wrap_lines_within(fm, t, size, maxw, e);
        let lines = wrap_lines(fm, t, size, maxw, s);
        let rest = wrap_lines(fm, t, size, maxw, e);
        assert forall|i: int| 0 <= i < lines.len() implies {
            let line = #[trigger] lines[i];
            &&& line_total_width(line) <= maxw || line_char_count(line) == 1
            &&& line_total_width(line) <= maxw + crate::metrics::MAX_ADVANCE_EM * size
        } by {
            if i > 0 {
                assert(lines[i] == rest[i - 1]);
            }
        }
    }
}

/// Every line the wrapper yields for a whole caption is within the budget or
/// is a single unbreakable character (an empty caption's single blank line is
/// zero-width).
pub proof fn lemma_wrap_text_within(fm: FontMetrics, s: Seq<char>, size: nat, maxw: nat)
    requires
        fm.valid(),
    ensures
        forall|i: int|
            0 <= i < wrap_text_spec(fm, s, size, maxw).len() ==> {
                let line = #[trigger] wrap_text_spec(fm, s, size, maxw)[i];
                &&& line_total_width(line) <= maxw || line_char_count(line) == 1
                &&& line_total_width(line) <= maxw + crate::metrics::MAX_ADVANCE_EM * size
            },
{
    let ps = split_lines(s);
    if ps.len() == 0 {
        let line = empty_line();
        assert(line[0] == (Seq::<char>::empty(), false, 0nat));
        assert(line.drop_first() =~= Seq::<(Seq<char>, bool, nat)>::empty());
        assert(line_total_width(line) == line[0].2 + line_total_width(line.drop_first()));
        assert(line_total_width(line) == 0);
        assert(wrap_text_spec(fm, s, size, maxw) =~= seq![line]);
    } else {
        lemma_wrap_paras_within(fm, ps, size, maxw);
    }
}

proof fn lemma_wrap_paras_within(fm: FontMetrics, ps: Seq<Seq<char>>, size: nat, maxw: nat)
    requires
        fm.valid(),
    ensures
        forall|i: int|
            0 <= i < wrap_paras(fm, ps, size, maxw).len() ==> {
                let line = #[trigger] wrap_paras(fm, ps, size, maxw)[i];
                &&& line_total_width(line) <= maxw || line_char_count(line) == 1
                &&& line_total_width(line) <= maxw + crate::metrics::MAX_ADVANCE_EM * size
            },
    decreases ps.len(),
{
    if ps.len() > 0 {
        let head = wrap_paragraph_spec(fm, ps[0], size, maxw);
        let rest = wrap_paras(fm, ps.drop_first(), size, maxw);
        lemma_wrap_paras_within(fm, ps.drop_first(), size, maxw);
        if ps[0].len() == 0 {
            let line = empty_line();
            assert(line[0] == (Seq::<char>::empty(), false, 0nat));
            assert(line.drop_first() =~= Seq::<(Seq<char>, bool, nat)>::empty());
            assert(line_total_width(line) == line[0].2 + line_total_width(line.drop_first()));
        assert(line_total_width(line) == 0);
        } else {
            lemma_wrap_lines_within(fm, tagged_of(ps[0]), size, maxw, 0);
        }
        assert forall|i: int| 0 <= i < wrap_paras(fm, ps, size, maxw).len() implies {
            let line = #[trigger] wrap_paras(fm, ps, size, maxw)[i];
            &&& line_total_width(line) <= maxw || line_char_count(line) == 1
            &&& line_total_width(line) <= maxw + crate::metrics::MAX_ADVANCE_EM * size
        } by {
            if i < head.len() {
                assert(wrap_paras(fm, ps, size, maxw)[i] == head[i]);
            } else {
                assert(wrap_paras(fm, ps, size, maxw)[i] == rest[i - head.len()]);
            }
        }
    }
}

// ---------------------------------------------------------------------------
// Monotonicity of greedy wrapping
// ---------------------------------------------------------------------------
/// Character widths grow with the font size.
pub proof fn lemma_char_width_mono(fm: FontMetrics, c: char, k1: nat, k2: nat)
    requires
        fm.valid(),
        k1 <= k2,
    ensures
        fm.char_width(c, k1) <= fm.char_width(c, k2),
{
    let a = fm.advance_of(c) as int;
    assert(a * (k1 as int) <= a * (k2 as int)) by (nonlinear_arith)
        requires
            a >= 0,
            0 <= k1 <= k2,
    ;
    crate::metrics::lemma_ceil_div_mono(a * (k1 as int), a * (k2 as int), fm.units_per_em as int);
}

/// The greedy scan at a larger size, a tighter budget and a fuller line
/// breaks no later than one at a smaller size, a wider budget and an
/// emptier line.
proof fn lemma_scan_mono2(
    fm: FontMetrics,
    t: Seq<(char, bool)>,
    ka: nat,
    kb: nat,
    mwa: nat,
    mwb: nat,
    j: int,
    acca: nat,
    accb: nat,
)
    requires
        fm.valid(),
        kb <= ka,
        mwb >= mwa,
        accb <= acca,
        0 <= j <= t.len(),
    ensures
        scan_break(fm, t, ka, mwa, j, acca) <= scan_break(fm, t, kb, mwb, j, accb),
    decreases t.len() - j,
{
    if j < t.len() {
        let wa = tag_width(fm, t[j], ka);
        let wb = tag_width(fm, t[j], kb);
        lemma_char_width_mono(fm, t[j].0, kb, ka);
        if acca + wa > mwa {
            lemma_scan_break_bounds(fm, t, kb, mwb, j, accb);
        } else {
            lemma_scan_mono2(fm, t, ka, kb, mwa, mwb, j + 1, acca + wa, accb + wb);
        }
    }
}

/// A greedy line at a smaller size or wider budget reaches at least as far.
pub proof fn lemma_next_break_mono2(
    fm: FontMetrics,
    t: Seq<(char, bool)>,
    ka: nat,
    kb: nat,
    mwa: nat,
    mwb: nat,
    s: int,
)
    requires
        fm.valid(),
        kb <= ka,
        mwb >= mwa,
        0 <= s < t.len(),
    ensures
        next_break(fm, t, ka, mwa, s) <= next_break(fm, t, kb, mwb, s),
{
    lemma_char_width_mono(fm, t[s].0, kb, ka);
    lemma_scan_mono2(
        fm,
        t,
        ka,
        kb,
        mwa,
        mwb,
        s + 1,
        tag_width(fm, t[s], ka),
        tag_width(fm, t[s], kb),
    );
}

/// Greedy lines that start later also end no earlier.
proof fn lemma_next_break_mono_start(
    fm: FontMetrics,
    t: Seq<(char, bool)>,
    size: nat,
    maxw: nat,
    s1: int,
    s2: int,
)
    requires
        fm.valid(),
        0 <= s1 <= s2 < t.len(),
    ensures
        next_break(fm, t, size, maxw, s1) <= next_break(fm, t, size, maxw, s2),
    decreases s2 - s1,
{
    if s1 < s2 {
        lemma_next_break_step(fm, t, size, maxw, s1);
        lemma_next_break_mono_start(fm, t, size, maxw, s1 + 1, s2);
    }
}

proof fn lemma_next_break_step(fm: FontMetrics, t: Seq<(char, bool)>, size: nat, maxw: nat, s: int)
    requires
        fm.valid(),
        0 <= s,
        s + 1 < t.len(),
    ensures
        next_break(fm, t, size, maxw, s) <= next_break(fm, t, size, maxw, s + 1),
{
    let w0 = tag_width(fm, t[s], size);
    let w1 = tag_width(fm, t[s + 1], size);
    if w0 + w1 > maxw {
        assert(next_break(fm, t, size, maxw, s) == s + 1);
        lemma_next_break_bounds(fm, t, size, maxw, s + 1);
    } else {
        assert(next_break(fm, t, size, maxw, s) == scan_break(
            fm,
            t,
            size,
            maxw,
            s + 2,
            (w0 + w1) as nat,
        ));
        lemma_scan_mono2(fm, t, size, size, maxw, maxw, s + 2, (w0 + w1) as nat, w1);
    }
}

/// Fewer greedy lines come out at a smaller size or wider budget, from any
/// pair of related starting points.
pub proof fn lemma_wrap_count_mono2(
    fm: FontMetrics,
    t: Seq<(char, bool)>,
    ka: nat,
    kb: nat,
    mwa: nat,
    mwb: nat,
    sa: int,
    sb: int,
)
    requires
        fm.valid(),
        kb <= ka,
        mwb >= mwa,
        0 <= sa <= sb,
    ensures
        wrap_lines(fm, t, kb, mwb, sb).len() <= wrap_lines(fm, t, ka, mwa, sa).len(),
    decreases t.len() - sa,
{
    if sb >= t.len() {
    } else {
        let ea = next_break(fm, t, ka, mwa, sa);
        let eb = next_break(fm, t, kb, mwb, sb);
        lemma_next_break_bounds(fm, t, ka, mwa, sa);
        lemma_next_break_bounds(fm, t, kb, mwb, sb);
        lemma_next_break_mono2(fm, t, ka, kb, mwa, mwb, sa);
        lemma_next_break_mono_start(fm, t, kb, mwb, sa, sb);
        assert(ea <= eb);
        lemma_wrap_count_mono2(fm, t, ka, kb, mwa, mwb, ea, eb);
    }
}

/// Any single character is at most as wide as the widest wrapped line it
/// appears in.
proof fn lemma_text_width_ge_char(fm: FontMetrics, s: Seq<char>, i: int, size: nat)
    requires
        fm.valid(),
        0 <= i < s.len(),
    ensures
        fm.char_width(s[i], size) <= fm.text_width(s, size),
{
    lemma_sum_advances_ge(fm, s, i);
    let a = fm.advance_of(s[i]) as int;
    let b = fm.sum_advances(s) as int;
    let k = size as int;
    assert(a * k <= b * k) by (nonlinear_arith)
        requires
            0 <= a <= b,
            k >= 0,
    ;
    crate::metrics::lemma_ceil_div_mono(a * k, b * k, fm.units_per_em as int);
}

proof fn lemma_sum_advances_ge(fm: FontMetrics, s: Seq<char>, i: int)
    requires
        0 <= i < s.len(),
    ensures
        fm.advance_of(s[i]) <= fm.sum_advances(s),
    decreases i,
{
    if i > 0 {
        lemma_sum_advances_ge(fm, s.drop_first(), i - 1);
    }
}

/// The runs of a line are each at least as wide as any character they hold.
proof fn lemma_group_total_ge_char(
    fm: FontMetrics,
    t: Seq<(char, bool)>,
    cur: Seq<char>,
    flag: bool,
    size: nat,
    c: char,
)
    requires
        fm.valid(),
        cur.contains(c) || chars_of(t).contains(c),
    ensures
        line_total_width(
            group_from(t, cur, flag).map_values(|g: (Seq<char>, bool)| run_view(fm, g, size)),
        ) >= fm.char_width(c, size),
    decreases t.len(),
{
    let f = |g: (Seq<char>, bool)| run_view(fm, g, size);
    if t.len() == 0 {
        assert(chars_of(t) =~= Seq::<char>::empty());
        assert(cur.contains(c));
        let i = choose|i: int| 0 <= i < cur.len() && cur[i] == c;
        lemma_text_width_ge_char(fm, cur, i, size);
        let line = group_from(t, cur, flag).map_values(f);
        assert(line =~= seq![run_view(fm, (cur, flag), size)]);
        assert(line[0].2 == fm.text_width(cur, size));
        assert(line.drop_first() =~= Seq::<(Seq<char>, bool, nat)>::empty());
        assert(line_total_width(line) == line[0].2 + line_total_width(line.drop_first()));
    } else {
        let c0 = t[0].0;
        assert(chars_of(t)[0] == c0);
        assert(chars_of(t).drop_first() =~= chars_of(t.drop_first()));
        if chars_of(t).contains(c) && !(c0 == c) {
            let i = choose|i: int| 0 <= i < chars_of(t).len() && chars_of(t)[i] == c;
            assert(chars_of(t.drop_first())[i - 1] == c);
            assert(chars_of(t.drop_first()).contains(c));
        }
        if t[0].1 == flag {
            assert(group_from(t, cur, flag) == group_from(t.drop_first(), cur.push(c0), flag));
            if cur.contains(c) {
                let i = choose|i: int| 0 <= i < cur.len() && cur[i] == c;
                assert(cur.push(c0)[i] == c);
                assert(cur.push(c0).contains(c));
            } else if c0 == c {
                assert(cur.push(c0)[cur.len() as int] == c);
                assert(cur.push(c0).contains(c));
            }
            lemma_group_total_ge_char(fm, t.drop_first(), cur.push(c0), flag, size, c);
        } else if cur.len() == 0 {
            assert(group_from(t, cur, flag) == group_from(t.drop_first(), seq![c0], t[0].1));
            if c0 == c {
                assert(seq![c0][0] == c);
                assert(seq![c0].contains(c));
            }
            lemma_group_total_ge_char(fm, t.drop_first(), seq![c0], t[0].1, size, c);
        } else {
            let tail = group_from(t.drop_first(), seq![c0], t[0].1);
            assert(group_from(t, cur, flag) == seq![(cur, flag)] + tail);
            assert((seq![(cur, flag)] + tail).map_values(f) =~= seq![run_view(fm, (cur, flag), size)]
                + tail.map_values(f));
            let line = (seq![(cur, flag)] + tail).map_values(f);
            assert(line[0].2 == fm.text_width(cur, size));
            assert(line.drop_first() =~= tail.map_values(f));
            assert(line_total_width(line) == line[0].2 + line_total_width(line.drop_first()));
            if cur.contains(c) {
                let i = choose|i: int| 0 <= i < cur.len() && cur[i] == c;
                lemma_text_width_ge_char(fm, cur, i, size);
                lemma_line_total_nonneg(tail.map_values(f));
            } else {
                if c0 == c {
                    assert(seq![c0][0] == c);
                    assert(seq![c0].contains(c));
                }
                lemma_group_total_ge_char(fm, t.drop_first(), seq![c0], t[0].1, size, c);
            }
        }
    }
}

proof fn lemma_line_total_nonneg(line: Seq<(Seq<char>, bool, nat)>)
    ensures
        line_total_width(line) >= 0,
{
}

/// Every character of the wrapped text is at most as wide as the widest line.
pub proof fn lemma_wrap_max_ge_char(
    fm: FontMetrics,
    t: Seq<(char, bool)>,
    size: nat,
    maxw: nat,
    s: int,
    i: int,
)
    requires
        fm.valid(),
        0 <= s <= i < t.len(),
    ensures
        tag_width(fm, t[i], size) <= max_line_width(wrap_lines(fm, t, size, maxw, s)),
    decreases t.len() - s,
{
    let e = next_break(fm, t, size, maxw, s);
    lemma_next_break_bounds(fm, t, size, maxw, s);
    let lines = wrap_lines(fm, t, size, maxw, s);
    let head = line_of(fm, t.subrange(s, e), size);
    let rest = wrap_lines(fm, t, size, maxw, e);
    assert(lines[0] == head);
    assert(lines.drop_first() =~= rest);
    assert(max_line_width(lines) == if line_total_width(head) >= max_line_width(rest) {
        line_total_width(head)
    } else {
        max_line_width(rest)
    });
    if i < e {
        let tl = t.subrange(s, e);
        assert(chars_of(tl)[i - s] == t[i].0);
        assert(chars_of(tl).contains(t[i].0));
        lemma_group_total_ge_char(fm, tl, Seq::empty(), false, size, t[i].0);
    } else {
        lemma_wrap_max_ge_char(fm, t, size, maxw, e, i);
    }
}

/// If every character fits the budget, every wrapped line does too.
pub proof fn lemma_wrap_lines_max_le(
    fm: FontMetrics,
    t: Seq<(char, bool)>,
    size: nat,
    maxw: nat,
    s: int,
    bound: nat,
)
    requires
        fm.valid(),
        0 <= s,
        bound <= maxw,
        forall|i: int| 0 <= i < t.len() ==> tag_width(fm, #[trigger] t[i], size) <= bound,
    ensures
        max_line_width(wrap_lines(fm, t, size, maxw, s)) <= maxw,
    decreases t.len() - s,
{
    if s < t.len() {
        let e = next_break(fm, t, size, maxw, s);
        lemma_next_break_bounds(fm, t, size, maxw, s);
        let tl = t.subrange(s, e);
        let head = line_of(fm, tl, size);
        let rest = wrap_lines(fm, t, size, maxw, e);
        lemma_group_total_le(fm, tl, Seq::empty(), false, size);
        lemma_scw_eq_wsum(fm, t, size, s, e);
        lemma_wsum_next_break(fm, t, size, maxw, s);
        if !(wsum(fm, t, size, s, e) <= maxw) {
            assert(e == s + 1);
            assert(wsum(fm, t, size, s, e) == tag_width(fm, t[s], size) + wsum(
                fm,
                t,
                size,
                s + 1,
                e,
            ));
        }
        assert(line_total_width(head) <= maxw);
        lemma_wrap_lines_max_le(fm, t, size, maxw, e, bound);
        let lines = wrap_lines(fm, t, size, maxw, s);
        assert(lines[0] == head);
        assert(lines.drop_first() =~= rest);
        assert(max_line_width(lines) == if line_total_width(head) >= max_line_width(rest) {
            line_total_width(head)
        } else {
            max_line_width(rest)
        });
    }
}

/// The widest line of two batches together is the wider of their widest lines.
pub proof fn lemma_max_line_width_concat(
    a: Seq<Seq<(Seq<char>, bool, nat)>>,
    b: Seq<Seq<(Seq<char>, bool, nat)>>,
)
    ensures
        max_line_width(a + b) == if max_line_width(a) >= max_line_width(b) {
            max_line_width(a)
        } else {
            max_line_width(b)
        },
    decreases a.len(),
{
    if a.len() == 0 {
        assert(a + b =~= b);
    } else {
        assert((a + b)[0] == a[0]);
        assert((a + b).drop_first() =~= a.drop_first() + b);
        lemma_max_line_width_concat(a.drop_first(), b);
    }
}

// ---------------------------------------------------------------------------
// Round trip: wrapping loses no character
// ---------------------------------------------------------------------------
/// The characters of one wrapped line, runs concatenated.
pub open spec fn line_chars(line: Seq<(Seq<char>, bool, nat)>) -> Seq<char>
    decreases line.len(),
{
    if line.len() == 0 {
        Seq::empty()
    } else {
        line[0].0 + line_chars(line.drop_first())
    }
}

/// The characters of all wrapped lines, in order.
pub open spec fn lines_chars(lines: Seq<Seq<(Seq<char>, bool, nat)>>) -> Seq<char>
    decreases lines.len(),
{
    if lines.len() == 0 {
        Seq::empty()
    } else {
        line_chars(lines[0]) + lines_chars(lines.drop_first())
    }
}

proof fn lemma_line_chars_eq(fm: FontMetrics, gs: Seq<(Seq<char>, bool)>, size: nat)
    ensures
        line_chars(gs.map_values(|g: (Seq<char>, bool)| run_view(fm, g, size))) == concat_segs(gs),
    decreases gs.len(),
{
    let line = gs.map_values(|g: (Seq<char>, bool)| run_view(fm, g, size));
    if gs.len() == 0 {
        assert(line_chars(line) =~= concat_segs(gs));
    } else {
        lemma_line_chars_eq(fm, gs.drop_first(), size);
        assert(line.drop_first() =~= gs.drop_first().map_values(
            |g: (Seq<char>, bool)| run_view(fm, g, size),
        ));
        assert(line[0].0 == gs[0].0);
        assert(line_chars(line) =~= concat_segs(gs));
    }
}

/// Tagging the characters of segments changes no character.
pub proof fn lemma_chars_of_flatten(segs: Seq<(Seq<char>, bool)>)
    ensures
        chars_of(flatten_segs(segs)) == concat_segs(segs),
    decreases segs.len(),
{
    if segs.len() == 0 {
        assert(chars_of(flatten_segs(segs)) =~= concat_segs(segs));
    } else {
        lemma_chars_of_flatten(segs.drop_first());
        assert(chars_of(flatten_segs(segs)) =~= concat_segs(segs));
    }
}

/// A paragraph's tagged characters are exactly its characters.
pub proof fn lemma_tagged_chars(p: Seq<char>)
    ensures
        chars_of(tagged_of(p)) == p,
        tagged_of(p).len() == p.len(),
{
    lemma_chars_of_flatten(parse_segments(p));
    crate::segment::lemma_parse_preserves_chars(p);
}

proof fn lemma_wrap_lines_chars(fm: FontMetrics, t: Seq<(char, bool)>, size: nat, maxw: nat, s: int)
    requires
        0 <= s <= t.len(),
    ensures
        lines_chars(wrap_lines(fm, t, size, maxw, s)) == chars_of(t.subrange(s, t.len() as int)),
    decreases t.len() - s,
{
    if s >= t.len() {
        assert(chars_of(t.subrange(s, t.len() as int)) =~= Seq::<char>::empty());
    } else {
        let e = next_break(fm, t, size, maxw, s);
        lemma_next_break_bounds(fm, t, size, maxw, s);
        lemma_wrap_lines_chars(fm, t, size, maxw, e);
        lemma_group_concat(t.subrange(s, e), Seq::empty(), false);
        lemma_line_chars_eq(fm, group_runs(t.subrange(s, e)), size);
        let lines = wrap_lines(fm, t, size, maxw, s);
        let rest = wrap_lines(fm, t, size, maxw, e);
        assert(lines[0] == line_of(fm, t.subrange(s, e), size));
        assert(lines.drop_first() =~= rest);
        assert(lines_chars(lines) == line_chars(lines[0]) + lines_chars(rest));
        assert(Seq::<char>::empty() + chars_of(t.subrange(s, e)) =~= chars_of(t.subrange(s, e)));
        assert(chars_of(t.subrange(s, e)) + chars_of(t.subrange(e, t.len() as int)) =~= chars_of(
            t.subrange(s, t.len() as int),
        ));
    }
}

proof fn lemma_split_no_newline(cur: Seq<char>, rest: Seq<char>)
    requires
        forall|i: int| 0 <= i < rest.len() ==> rest[i] != '\n',
    ensures
        cur.len() + rest.len() == 0 ==> split_lines_from(cur, rest) == Seq::<Seq<char>>::empty(),
        cur.len() + rest.len() > 0 ==> split_lines_from(cur, rest) == seq![cur + rest],
    decreases rest.len(),
{
    if rest.len() == 0 {
        if cur.len() > 0 {
            assert(cur + rest =~= cur);
            assert(split_lines_from(cur, rest) =~= seq![cur + rest]);
        }
    } else {
        assert(forall|i: int|
            0 <= i < rest.drop_first().len() ==> #[trigger] rest.drop_first()[i] == rest[i + 1]);
        lemma_split_no_newline(cur.push(rest[0]), rest.drop_first());
        assert(cur.push(rest[0]) + rest.drop_first() =~= cur + rest);
    }
}

/// Wrapping a single paragraph and concatenating every run's characters
/// restores the paragraph exactly: no character is lost or duplicated.
pub proof fn lemma_wrap_round_trip(fm: FontMetrics, s: Seq<char>, size: nat, maxw: nat)
    requires
        forall|i: int| 0 <= i < s.len() ==> s[i] != '\n',
    ensures
        lines_chars(wrap_text_spec(fm, s, size, maxw)) == s,
{
    lemma_split_no_newline(Seq::empty(), s);
    if s.len() == 0 {
        let lines = wrap_text_spec(fm, s, size, maxw);
        assert(lines =~= seq![empty_line()]);
        assert(lines[0] == empty_line());
        assert(lines.drop_first() =~= Seq::<Seq<(Seq<char>, bool, nat)>>::empty());
        assert(empty_line()[0].0 =~= Seq::<char>::empty());
        assert(empty_line().drop_first() =~= Seq::<(Seq<char>, bool, nat)>::empty());
        assert(line_chars(empty_line()) == empty_line()[0].0 + line_chars(
            empty_line().drop_first(),
        ));
        assert(lines_chars(lines) == line_chars(lines[0]) + lines_chars(lines.drop_first()));
        assert(lines_chars(lines) =~= s);
    } else {
        let ps = split_lines(s);
        assert(Seq::<char>::empty() + s =~= s);
        assert(ps =~= seq![s]);
        let wp = wrap_paragraph_spec(fm, s, size, maxw);
        assert(ps[0] == s);
        assert(ps.drop_first() =~= Seq::<Seq<char>>::empty());
        assert(wrap_paras(fm, ps, size, maxw) == wp + wrap_paras(
            fm,
            Seq::<Seq<char>>::empty(),
            size,
            maxw,
        ));
        assert(wrap_paras(fm, ps, size, maxw) =~= wp);
        let t = tagged_of(s);
        lemma_tagged_chars(s);
        lemma_wrap_lines_chars(fm, t, size, maxw, 0);
        assert(t.subrange(0, t.len() as int) =~= t);
    }
}

/// A wrapped caption always holds at least one line.
pub proof fn lemma_wrap_text_nonempty(fm: FontMetrics, s: Seq<char>, size: nat, maxw: nat)
    ensures
        wrap_text_spec(fm, s, size, maxw).len() >= 1,
{
    let ps = split_lines(s);
    if ps.len() > 0 {
        lemma_wrap_paras_len(fm, ps, size, maxw);
    }
}

proof fn lemma_wrap_paras_len(fm: FontMetrics, ps: Seq<Seq<char>>, size: nat, maxw: nat)
    requires
        ps.len() >= 1,
    ensures
        wrap_paras(fm, ps, size, maxw).len() >= wrap_paragraph_spec(fm, ps[0], size, maxw).len(),
        wrap_paragraph_spec(fm, ps[0], size, maxw).len() >= 1,
{
    let p = ps[0];
    if p.len() == 0 {
    } else {
        lemma_tagged_chars(p);
        assert(wrap_lines(fm, tagged_of(p), size, maxw, 0).len() >= 1);
    }
}

/// Every produced paragraph is at most as long as what was split.
proof fn lemma_split_para_len(cur: Seq<char>, rest: Seq<char>, i: int)
    requires
        0 <= i < split_lines_from(cur, rest).len(),
    ensures
        split_lines_from(cur, rest)[i].len() <= cur.len() + rest.len(),
    decreases rest.len(),
{
    if rest.len() == 0 {
    } else if rest[0] == '\n' {
        if i > 0 {
            lemma_split_para_len(Seq::empty(), rest.drop_first(), i - 1);
            assert(split_lines_from(cur, rest)[i] == split_lines_from(
                Seq::empty(),
                rest.drop_first(),
            )[i - 1]);
        }
    } else {
        lemma_split_para_len(cur.push(rest[0]), rest.drop_first(), i);
    }
}

// ---------------------------------------------------------------------------
// The wrapper
// ---------------------------------------------------------------------------
/// Wrap `text` at pixel size `size` into lines at most `max_width` pixels
/// wide, greedily and highlight-preserving. Every line stays within
/// `max_width` unless it holds one single unbreakable character.
pub fn wrap_text(text: &str, fm: &FontMetrics, size: u32, max_width: u32) -> (r: Vec<
    Vec<(TextSegment, u32)>,
>)
    requires
        fm.valid(),
        1 <= size <= MAX_FONT_SIZE,
        1 <= max_width <= MAX_REGION,
        text@.len() <= MAX_TEXT_LEN,
    ensures
        lines_view(r@) == wrap_text_spec(*fm, text@, size as nat, max_width as nat),
        r@.len() >= 1,
        forall|i: int|
            0 <= i < r@.len() ==> {
                let line = #[trigger] lines_view(r@)[i];
                line_total_width(line) <= max_width || line_char_count(line) == 1
            },
{
    let ghost gsize = size as nat;
    let ghost gmaxw = max_width as nat;
    let chars = str_chars(text);
    let paras = split_paragraphs(&chars);
    let n = paras.len();
    let mut out: Vec<Vec<(TextSegment, u32)>> = Vec::new();
    if n == 0 {
        let mut line: Vec<(TextSegment, u32)> = Vec::new();
        line.push((TextSegment { text: Vec::new(), is_highlighted: false }, 0));
        out.push(line);
        proof {
            assert(line_view(line@) =~= empty_line());
            assert(lines_view(out@) =~= seq![empty_line()]);
        }
    } else {
        let mut i: usize = 0;
        proof {
            assert(paras_view(paras@).skip(0) =~= paras_view(paras@));
        }
        while i < n
            invariant
                fm.valid(),
                1 <= size <= MAX_FONT_SIZE,
                1 <= max_width <= MAX_REGION,
                gsize == size as nat,
                gmaxw == max_width as nat,
                n == paras@.len(),
                i <= n,
                n >= 1,
                chars@ == text@,
                text@.len() <= MAX_TEXT_LEN,
                paras_view(paras@) == split_lines(chars@),
                lines_view(out@) + wrap_paras(*fm, paras_view(paras@).skip(i as int), gsize, gmaxw)
                    =~= wrap_paras(*fm, paras_view(paras@), gsize, gmaxw),
            decreases n - i,
        {
            let ghost pview = paras_view(paras@);
            proof {
                assert(pview.skip(i as int)[0] == paras@[i as int]@);
                assert(pview.skip(i as int).drop_first() =~= pview.skip(i + 1));
                lemma_split_para_len(Seq::empty(), chars@, i as int);
                lemma_tagged_chars(paras@[i as int]@);
            }
            let segs = parse_chars(&paras[i]);
            let tagged = flatten_tagged(&segs);
            proof {
                assert(tagged@ == tagged_of(paras@[i as int]@));
            }
            let mut lines = wrap_tagged(fm, &tagged, size, max_width);
            let ghost old_out = out@;
            let ghost lines_snap = lines@;
            out.append(&mut lines);
            proof {
                assert(lines_view(lines_snap) == wrap_paragraph_spec(
                    *fm,
                    paras@[i as int]@,
                    gsize,
                    gmaxw,
                ));
                assert(lines_view(out@) =~= lines_view(old_out) + lines_view(lines_snap));
                assert(wrap_paras(*fm, pview.skip(i as int), gsize, gmaxw) == wrap_paragraph_spec(
                    *fm,
                    pview.skip(i as int)[0],
                    gsize,
                    gmaxw,
                ) + wrap_paras(*fm, pview.skip(i + 1), gsize, gmaxw));
            }
            i = i + 1;
        }
        proof {
            assert(paras_view(paras@).skip(n as int) =~= Seq::<Seq<char>>::empty());
            assert(lines_view(out@) =~= wrap_paras(*fm, paras_view(paras@), gsize, gmaxw));
        }
    }
    proof {
        assert(lines_view(out@) == wrap_text_spec(*fm, text@, gsize, gmaxw));
        lemma_wrap_text_nonempty(*fm, text@, gsize, gmaxw);
        lemma_wrap_text_within(*fm, text@, gsize, gmaxw);
    }
    out
}

/// Measure one run of a line as a single string; the run's width is bounded
/// by the line's character-width sum, so it fits in 32 bits.
fn measure_run(
    fm: &FontMetrics,
    cur: &Vec<char>,
    size: u32,
    max_width: u32,
    Ghost(t): Ghost<Seq<(char, bool)>>,
    Ghost(run_start): Ghost<int>,
    Ghost(p): Ghost<int>,
    Ghost(s): Ghost<int>,
    Ghost(e): Ghost<int>,
    Ghost(acc): Ghost<u64>,
) -> (w: u32)
    requires
        fm.valid(),
        1 <= size <= MAX_FONT_SIZE,
        1 <= max_width <= MAX_REGION,
        0 <= s <= run_start <= p <= e <= t.len(),
        t.len() <= MAX_TEXT_LEN,
        cur@ == chars_of(t.subrange(run_start, p)),
        acc == wsum(*fm, t, size as nat, s, e),
        acc <= max_width || acc == tag_width(*fm, t[s], size as nat),
        acc <= 17000000,
    ensures
        w == fm.text_width(cur@, size as nat),
{
    proof {
        lemma_scw_eq_wsum(*fm, t, size as nat, run_start, p);
        lemma_text_width_le_scw(*fm, cur@, size as nat);
        lemma_wsum_split(*fm, t, size as nat, s, run_start, e);
        lemma_wsum_split(*fm, t, size as nat, run_start, p, e);
        assert(wsum(*fm, t, size as nat, run_start, p) <= acc);
        assert(fm.text_width(cur@, size as nat) <= 17000000);
    }
    let w64 = fm.measure_text_width(cur, size);
    w64 as u32
}

// ---------------------------------------------------------------------------
// Line counts
// ---------------------------------------------------------------------------
/// A wrapped suffix has at most one line per character.
pub proof fn lemma_wrap_lines_count(
    fm: FontMetrics,
    t: Seq<(char, bool)>,
    size: nat,
    maxw: nat,
    s: int,
)
    requires
        0 <= s,
    ensures
        wrap_lines(fm, t, size, maxw, s).len() <= t.len() - s
            || wrap_lines(fm, t, size, maxw, s).len() == 0,
    decreases t.len() - s,
{
    if s < t.len() {
        let e = next_break(fm, t, size, maxw, s);
        lemma_next_break_bounds(fm, t, size, maxw, s);
        lemma_wrap_lines_count(fm, t, size, maxw, e);
    }
}

/// Combined length of a sequence of paragraphs.
pub open spec fn sum_para_lens(ps: Seq<Seq<char>>) -> nat
    decreases ps.len(),
{
    if ps.len() == 0 {
        0
    } else {
        ps[0].len() + sum_para_lens(ps.drop_first())
    }
}

/// Splitting yields at most one paragraph per character plus one, and no
/// characters beyond those split.
proof fn lemma_split_lens(cur: Seq<char>, rest: Seq<char>)
    ensures
        split_lines_from(cur, rest).len() <= rest.len() + 1,
        sum_para_lens(split_lines_from(cur, rest)) <= cur.len() + rest.len(),
    decreases rest.len(),
{
    if rest.len() == 0 {
        if cur.len() > 0 {
            let ps = split_lines_from(cur, rest);
            assert(ps =~= seq![cur]);
            assert(ps[0] == cur);
            assert(ps.drop_first() =~= Seq::<Seq<char>>::empty());
            assert(sum_para_lens(ps) == cur.len() + sum_para_lens(ps.drop_first()));
        }
    } else if rest[0] == '\n' {
        lemma_split_lens(Seq::empty(), rest.drop_first());
        let tail = split_lines_from(Seq::empty(), rest.drop_first());
        let ps = split_lines_from(cur, rest);
        assert(ps == seq![strip_cr(cur)] + tail);
        assert(ps[0] == strip_cr(cur));
        assert(ps.drop_first() =~= tail);
        assert(sum_para_lens(ps) == strip_cr(cur).len() + sum_para_lens(tail));
        assert(strip_cr(cur).len() <= cur.len());
    } else {
        lemma_split_lens(cur.push(rest[0]), rest.drop_first());
    }
}

/// A wrapped caption has at most `2 * len + 1` lines.
pub proof fn lemma_wrap_text_count(fm: FontMetrics, s: Seq<char>, size: nat, maxw: nat)
    ensures
        wrap_text_spec(fm, s, size, maxw).len() <= 2 * s.len() + 1,
{
    let ps = split_lines(s);
    lemma_split_lens(Seq::empty(), s);
    if ps.len() == 0 {
    } else {
        lemma_wrap_paras_count(fm, ps, size, maxw);
    }
}

proof fn lemma_wrap_paras_count(fm: FontMetrics, ps: Seq<Seq<char>>, size: nat, maxw: nat)
    ensures
        wrap_paras(fm, ps, size, maxw).len() <= sum_para_lens(ps) + ps.len(),
    decreases ps.len(),
{
    if ps.len() > 0 {
        let p = ps[0];
        lemma_wrap_paras_count(fm, ps.drop_first(), size, maxw);
        if p.len() == 0 {
        } else {
            lemma_tagged_chars(p);
            lemma_wrap_lines_count(fm, tagged_of(p), size, maxw, 0);
        }
    }
}

} // verus!
