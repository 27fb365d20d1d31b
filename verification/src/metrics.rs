//! Integer glyph metrics.
//!
//! A font is modelled by the per-character advance widths and the line height
//! in font units, together with `units_per_em`. A string measured at an
//! integer pixel size `s` has width `ceil(sum_of_advances * s / units_per_em)`:
//! the unscaled advances are summed first and the result is scaled and
//! ceiling-rounded once, so per-character rounding error does not compound.
//! A single character's width is the same formula over its advance alone.

use vstd::prelude::*;

verus! {

/// Largest `units_per_em` the model accepts.
pub const MAX_UNITS_PER_EM: u32 = 1000000;

/// Largest pixel size (font size) the model accepts.
pub const MAX_FONT_SIZE: u32 = 1000000;

/// Largest caption length (in characters) the layout functions accept.
pub const MAX_TEXT_LEN: usize = 1000000;

/// An advance width or line height may be at most this many em, so that a
/// character is at most `16 * size` pixels wide at pixel size `size`.
pub const MAX_ADVANCE_EM: u32 = 16;

/// Ceiling division of `a` by `b` over the integers.
pub open spec fn ceil_div(a: int, b: int) -> int {
    (a + b - 1) / b
}

/// First advance recorded for `c`, or `default` if none is.
pub open spec fn lookup_advance(entries: Seq<(char, u32)>, c: char, default: u32) -> u32
    decreases entries.len(),
{
    if entries.len() == 0 {
        default
    } else if entries[0].0 == c {
        entries[0].1
    } else {
        lookup_advance(entries.drop_first(), c, default)
    }
}

/// Glyph metrics of one font, in font units.
pub struct FontMetrics {
    /// Font units per em; the divisor of every scaling step.
    pub units_per_em: u32,
    /// `ascent - descent + line_gap`, in font units.
    pub line_height_units: u32,
    /// Advance width per character, in font units; first entry for a
    /// character wins.
    pub advances: Vec<(char, u32)>,
    /// Advance width of every character not listed in `advances`.
    pub default_advance: u32,
}

impl FontMetrics {
    /// Well-formedness: positive `units_per_em` and all stored widths bounded
    /// by `MAX_ADVANCE_EM` em, which keeps every pixel computation in range.
    pub open spec fn valid(&self) -> bool {
        &&& 1 <= self.units_per_em <= MAX_UNITS_PER_EM
        &&& self.line_height_units <= MAX_ADVANCE_EM * self.units_per_em
        &&& self.default_advance <= MAX_ADVANCE_EM * self.units_per_em
        &&& forall|i: int|
            0 <= i < self.advances.len() ==> (#[trigger] self.advances[i]).1 <= MAX_ADVANCE_EM
                * self.units_per_em
    }

    /// Advance width of `c` in font units.
    pub open spec fn advance_of(&self, c: char) -> nat {
        lookup_advance(self.advances@, c, self.default_advance) as nat
    }

    /// Sum of the advance widths of `s` in font units.
    pub open spec fn sum_advances(&self, s: Seq<char>) -> nat
        decreases s.len(),
    {
        if s.len() == 0 {
            0
        } else {
            self.advance_of(s[0]) + self.sum_advances(s.drop_first())
        }
    }

    /// `units` font units scaled to pixels at pixel size `size`, rounded up.
    pub open spec fn scale_units(&self, units: nat, size: nat) -> nat {
        ceil_div(units * size as int, self.units_per_em as int) as nat
    }

    /// Pixel width of the string `s` at pixel size `size`: the advances are
    /// summed unscaled and the sum is scaled and ceiling-rounded once.
    pub open spec fn text_width(&self, s: Seq<char>, size: nat) -> nat {
        self.scale_units(self.sum_advances(s), size)
    }

    /// Pixel width of the single character `c` at pixel size `size`.
    pub open spec fn char_width(&self, c: char, size: nat) -> nat {
        self.scale_units(self.advance_of(c), size)
    }

    /// Pixel line height at pixel size `size`.
    pub open spec fn line_height(&self, size: nat) -> nat {
        self.scale_units(self.line_height_units as nat, size)
    }

    /// Whether these metrics are well-formed.
    pub fn check_valid(&self) -> (r: bool)
        ensures
            r == self.valid(),
    {
        if !(1 <= self.units_per_em && self.units_per_em <= MAX_UNITS_PER_EM) {
            return false;
        }
        let cap = MAX_ADVANCE_EM * self.units_per_em;
        if self.line_height_units > cap || self.default_advance > cap {
            return false;
        }
        let n = self.advances.len();
        let mut i: usize = 0;
        while i < n
            invariant
                n == self.advances@.len(),
                i <= n,
                cap == MAX_ADVANCE_EM * self.units_per_em,
                forall|j: int|
                    0 <= j < i ==> (#[trigger] self.advances@[j]).1 <= MAX_ADVANCE_EM
                        * self.units_per_em,
            decreases n - i,
        {
            if self.advances[i].1 > cap {
                return false;
            }
            i = i + 1;
        }
        true
    }

    /// Advance width of `c` in font units.
    pub fn advance(&self, c: char) -> (r: u32)
        ensures
            r == self.advance_of(c),
    {
        let entries = &self.advances;
        let n = entries.len();
        let mut i: usize = 0;
        proof {
            assert(entries@.skip(0) =~= entries@);
        }
        while i < n
            invariant
                entries@ == self.advances@,
                n == entries.len(),
                i <= n,
                lookup_advance(entries@, c, self.default_advance) == lookup_advance(
                    entries@.skip(i as int),
                    c,
                    self.default_advance,
                ),
            decreases n - i,
        {
            proof {
                assert(entries@.skip(i as int)[0] == entries@[i as int]);
            }
            if entries[i].0 == c {
                proof {
                    assert(lookup_advance(entries@.skip(i as int), c, self.default_advance)
                        == entries@[i as int].1);
                }
                return entries[i].1;
            }
            proof {
                assert(entries@.skip(i as int).drop_first() =~= entries@.skip(i + 1));
            }
            i = i + 1;
        }
        proof {
            assert(entries@.skip(n as int) =~= Seq::<(char, u32)>::empty());
        }
        self.default_advance
    }

    /// Pixel width of one character at pixel size `size`.
    pub fn char_width_px(&self, c: char, size: u32) -> (r: u32)
        requires
            self.valid(),
            size <= MAX_FONT_SIZE,
        ensures
            r == self.char_width(c, size as nat),
            r <= MAX_ADVANCE_EM * size,
    {
        let adv = self.advance(c);
        let u = self.units_per_em;
        proof {
            lemma_advance_bounded(self, c);
            assert((adv as int) * (size as int) <= (MAX_ADVANCE_EM * u) as int * (size as int))
                by (nonlinear_arith)
                requires
                    adv <= MAX_ADVANCE_EM * u,
                    size >= 0,
            ;
            assert((MAX_ADVANCE_EM * u) as int * (size as int) <= 16000000000000int)
                by (nonlinear_arith)
                requires
                    u <= 1000000,
                    size <= 1000000,
                    MAX_ADVANCE_EM * u >= 0,
            ;
            lemma_scale_bounded(self, adv as nat, size as nat, 1);
        }
        let w: u64 = ((adv as u64) * (size as u64) + (u as u64) - 1) / (u as u64);
        w as u32
    }

    /// Pixel line height at pixel size `size`.
    pub fn line_height_px(&self, size: u32) -> (r: u32)
        requires
            self.valid(),
            size <= MAX_FONT_SIZE,
        ensures
            r == self.line_height(size as nat),
            r <= MAX_ADVANCE_EM * size,
    {
        let u = self.units_per_em;
        let lh = self.line_height_units;
        proof {
            assert((lh as int) * (size as int) <= 16000000000000int) by (nonlinear_arith)
                requires
                    lh <= MAX_ADVANCE_EM * u,
                    u <= 1000000,
                    size <= 1000000,
            ;
            lemma_scale_bounded(self, lh as nat, size as nat, 1);
        }
        let w: u64 = ((lh as u64) * (size as u64) + (u as u64) - 1) / (u as u64);
        w as u32
    }

    /// Pixel width of `text` at pixel size `size`, measured as one string.
    pub fn measure_text_width(&self, text: &Vec<char>, size: u32) -> (r: u64)
        requires
            self.valid(),
            size <= MAX_FONT_SIZE,
            text@.len() <= MAX_TEXT_LEN,
        ensures
            r == self.text_width(text@, size as nat),
            r <= MAX_ADVANCE_EM * (size as int) * (text@.len() as int),
    {
        let u = self.units_per_em;
        let mut sum: u64 = 0;
        let n = text.len();
        let mut i: usize = 0;
        while i < n
            invariant
                self.valid(),
                u == self.units_per_em,
                i <= n,
                n == text@.len() <= MAX_TEXT_LEN,
                sum == self.sum_advances(text@.take(i as int)),
                sum <= (i as int) * (MAX_ADVANCE_EM * u) as int,
            decreases n - i,
        {
            let a = self.advance(text[i]);
            proof {
                lemma_advance_bounded(self, text@[i as int]);
                lemma_sum_advances_push(self, text@.take(i as int), text@[i as int]);
                assert(text@.take(i as int).push(text@[i as int]) =~= text@.take(i + 1));
                assert((i as int) * (MAX_ADVANCE_EM * u) as int + (MAX_ADVANCE_EM * u) as int == (i
                    + 1) * (MAX_ADVANCE_EM * u) as int) by (nonlinear_arith);
                assert((i + 1) * (MAX_ADVANCE_EM * u) as int <= 16000000000000int)
                    by (nonlinear_arith)
                    requires
                        0 <= i,
                        i + 1 <= 1000000,
                        0 <= MAX_ADVANCE_EM * u <= 16000000,
                ;
            }
            sum = sum + (a as u64);
            i = i + 1;
        }
        proof {
            assert(text@.take(n as int) =~= text@);
            assert((sum as int) * (size as int) <= (n as int) * (MAX_ADVANCE_EM * u) as int * (
            size as int) && (n as int) * (MAX_ADVANCE_EM * u) as int * (size as int)
                <= 16000000000000000000int) by (nonlinear_arith)
                requires
                    0 <= sum <= (n as int) * (MAX_ADVANCE_EM * u) as int,
                    0 <= size <= 1000000,
                    0 <= n <= 1000000,
                    0 <= MAX_ADVANCE_EM * u <= 16000000,
            ;
            lemma_scale_bounded(self, sum as nat, size as nat, n as nat);
        }
        let w128: u128 = ((sum as u128) * (size as u128) + (u as u128) - 1) / (u as u128);
        w128 as u64
    }
}

/// A well-formed font gives every character a bounded advance.
pub proof fn lemma_advance_bounded(fm: &FontMetrics, c: char)
    requires
        fm.valid(),
    ensures
        fm.advance_of(c) <= MAX_ADVANCE_EM * fm.units_per_em,
{
    lemma_lookup_bounded(fm.advances@, c, fm.default_advance, MAX_ADVANCE_EM * fm.units_per_em);
}

proof fn lemma_lookup_bounded(entries: Seq<(char, u32)>, c: char, default: u32, bound: int)
    requires
        default <= bound,
        forall|i: int| 0 <= i < entries.len() ==> (#[trigger] entries[i]).1 <= bound,
    ensures
        lookup_advance(entries, c, default) <= bound,
    decreases entries.len(),
{
    if entries.len() != 0 && entries[0].0 != c {
        assert forall|i: int| 0 <= i < entries.drop_first().len() implies (#[trigger] entries
            .drop_first()[i]).1 <= bound by {
            assert(entries.drop_first()[i] == entries[i + 1]);
        }
        lemma_lookup_bounded(entries.drop_first(), c, default, bound);
    }
}

/// Scaling a bounded number of font units stays within `16 * size * n` pixels.
pub proof fn lemma_scale_bounded(fm: &FontMetrics, units: nat, size: nat, n: nat)
    requires
        fm.valid(),
        units <= n * (MAX_ADVANCE_EM * fm.units_per_em) as int,
    ensures
        fm.scale_units(units, size) == ceil_div(units * size as int, fm.units_per_em as int),
        fm.scale_units(units, size) <= MAX_ADVANCE_EM * size * n,
{
    let u = fm.units_per_em as int;
    let a = units * size as int;
    assert(a <= (MAX_ADVANCE_EM * size * n) * u) by (nonlinear_arith)
        requires
            units <= n * (MAX_ADVANCE_EM as int * u),
            size >= 0,
            n >= 0,
            u >= 1,
            a == units * size as int,
    ;
    lemma_ceil_div_le_exact(a, MAX_ADVANCE_EM * size * n, u);
}

/// `ceil_div(a, u) <= m` whenever `a <= m * u`.
pub proof fn lemma_ceil_div_le_exact(a: int, m: int, u: int)
    requires
        0 <= a,
        0 <= m,
        1 <= u,
        a <= m * u,
    ensures
        0 <= ceil_div(a, u) <= m,
{
    assert(0 <= (a + u - 1) / u <= m) by (nonlinear_arith)
        requires
            0 <= a,
            0 <= m,
            1 <= u,
            a <= m * u,
    ;
}

/// Ceiling division never rounds below the exact quotient: `a <= u * ceil_div(a, u)`.
pub proof fn lemma_ceil_div_lower(a: int, u: int)
    requires
        0 <= a,
        1 <= u,
    ensures
        a <= u * ceil_div(a, u),
        0 <= ceil_div(a, u),
{
    assert(a <= u * ((a + u - 1) / u) && 0 <= (a + u - 1) / u) by (nonlinear_arith)
        requires
            0 <= a,
            1 <= u,
    ;
}

/// Ceiling division is monotone in the dividend.
pub proof fn lemma_ceil_div_mono(a: int, b: int, u: int)
    requires
        0 <= a <= b,
        1 <= u,
    ensures
        ceil_div(a, u) <= ceil_div(b, u),
{
    assert((a + u - 1) / u <= (b + u - 1) / u) by (nonlinear_arith)
        requires
            0 <= a <= b,
            1 <= u,
    ;
}

/// Ceiling division is subadditive: rounding a sum once never exceeds
/// rounding the parts separately.
pub proof fn lemma_ceil_div_subadd(x: int, y: int, u: int)
    requires
        0 <= x,
        0 <= y,
        1 <= u,
    ensures
        ceil_div(x + y, u) <= ceil_div(x, u) + ceil_div(y, u),
{
    lemma_ceil_div_lower(x, u);
    lemma_ceil_div_lower(y, u);
    assert(x + y <= u * ceil_div(x, u) + u * ceil_div(y, u));
    assert(u * ceil_div(x, u) + u * ceil_div(y, u) == (ceil_div(x, u) + ceil_div(y, u)) * u)
        by (nonlinear_arith);
    lemma_ceil_div_le_exact(x + y, ceil_div(x, u) + ceil_div(y, u), u);
}

/// Appending one character adds its advance to the sum.
pub proof fn lemma_sum_advances_push(fm: &FontMetrics, s: Seq<char>, c: char)
    ensures
        fm.sum_advances(s.push(c)) == fm.sum_advances(s) + fm.advance_of(c),
    decreases s.len(),
{
    if s.len() == 0 {
        assert(s.push(c)[0] == c);
        assert(s.push(c).drop_first() =~= Seq::<char>::empty());
        assert(fm.sum_advances(s.push(c)) == fm.advance_of(c) + fm.sum_advances(
            Seq::<char>::empty(),
        ));
    } else {
        assert(s.push(c)[0] == s[0]);
        assert(s.push(c).drop_first() =~= s.drop_first().push(c));
        lemma_sum_advances_push(fm, s.drop_first(), c);
        assert(fm.sum_advances(s.push(c)) == fm.advance_of(s[0]) + fm.sum_advances(
            s.drop_first().push(c),
        ));
    }
}

} // verus!
