//! Highlight-aware segmentation of one paragraph.
//!
//! Two bracket pairs mark highlighted stretches: `【`/`[` open one and
//! `】`/`]` close one. A start marker flushes the run accumulated so far
//! (with its previous highlight state) and begins a highlighted run that
//! contains the marker itself. An end marker is appended to the current run;
//! if highlighting was on, the run is flushed as highlighted and highlighting
//! turns off, otherwise the marker is ordinary text. A run left over at the
//! end of the paragraph keeps whatever highlight state is active, so an
//! unterminated highlight stays highlighted to the end.

use vstd::prelude::*;
use crate::text::str_chars;

verus! {

/// One maximal stretch of characters sharing a highlight state.
#[derive(Debug)]
pub struct TextSegment {
    /// The characters of the run, markers included.
    pub text: Vec<char>,
    /// Whether the run is highlighted.
    pub is_highlighted: bool,
}

impl Default for TextSegment {
    /// An empty, unhighlighted run.
    fn default() -> (r: TextSegment)
        ensures
            r.text@ == Seq::<char>::empty(),
            r.is_highlighted == false,
    {
        TextSegment { text: Vec::new(), is_highlighted: false }
    }
}

/// The view of a segment: its characters and highlight flag.
pub open spec fn seg_view(seg: TextSegment) -> (Seq<char>, bool) {
    (seg.text@, seg.is_highlighted)
}

/// The views of a sequence of segments.
pub open spec fn segs_view(segs: Seq<TextSegment>) -> Seq<(Seq<char>, bool)> {
    segs.map_values(|seg: TextSegment| seg_view(seg))
}

/// Whether `c` opens a highlight (fullwidth or ASCII opening bracket).
pub open spec fn is_start_marker(c: char) -> bool {
    c == '\u{3010}' || c == '['
}

/// Whether `c` closes a highlight (fullwidth or ASCII closing bracket).
pub open spec fn is_end_marker(c: char) -> bool {
    c == '\u{3011}' || c == ']'
}

/// The segments produced from the remaining input `s`, given the run
/// accumulated so far (`cur`, highlighted iff `hl`).
pub open spec fn parse_spec(s: Seq<char>, cur: Seq<char>, hl: bool) -> Seq<(Seq<char>, bool)>
    decreases s.len(),
{
    if s.len() == 0 {
        if cur.len() == 0 {
            Seq::empty()
        } else {
            seq![(cur, hl)]
        }
    } else {
        let c = s[0];
        if is_start_marker(c) {
            if cur.len() > 0 {
                seq![(cur, hl)] + parse_spec(s.drop_first(), seq![c], true)
            } else {
                parse_spec(s.drop_first(), seq![c], true)
            }
        } else if is_end_marker(c) && hl {
            seq![(cur.push(c), true)] + parse_spec(s.drop_first(), Seq::empty(), false)
        } else {
            parse_spec(s.drop_first(), cur.push(c), hl)
        }
    }
}

/// The segments of the paragraph `s`.
pub open spec fn parse_segments(s: Seq<char>) -> Seq<(Seq<char>, bool)> {
    parse_spec(s, Seq::empty(), false)
}

/// The characters of `segs`, concatenated.
pub open spec fn concat_segs(segs: Seq<(Seq<char>, bool)>) -> Seq<char>
    decreases segs.len(),
{
    if segs.len() == 0 {
        Seq::empty()
    } else {
        segs[0].0 + concat_segs(segs.drop_first())
    }
}

/// Split one paragraph into highlighted and plain runs.
pub fn parse_highlighted_text(text: &str) -> (r: Vec<TextSegment>)
    ensures
        segs_view(r@) == parse_segments(text@),
{
    let chars = str_chars(text);
    parse_chars(&chars)
}

/// Split one paragraph, given as characters, into highlighted and plain runs.
pub fn parse_chars(chars: &Vec<char>) -> (r: Vec<TextSegment>)
    ensures
        segs_view(r@) == parse_segments(chars@),
{
    let n = chars.len();
    let mut segments: Vec<TextSegment> = Vec::new();
    let mut current: Vec<char> = Vec::new();
    let mut in_highlight = false;
    let mut i: usize = 0;
    proof {
        assert(chars@.skip(0) =~= chars@);
        assert(segs_view(segments@) + parse_spec(chars@, current@, false) =~= parse_segments(chars@));
    }
    while i < n
        invariant
            n == chars@.len(),
            i <= n,
            segs_view(segments@) + parse_spec(chars@.skip(i as int), current@, in_highlight)
                =~= parse_segments(chars@),
        decreases n - i,
    {
        let c = chars[i];
        proof {
            assert(chars@.skip(i as int)[0] == chars@[i as int]);
            assert(chars@.skip(i as int).drop_first() =~= chars@.skip(i + 1));
        }
        if c == '\u{3010}' || c == '[' {
            if current.len() > 0 {
                let ghost old_segments = segments@;
                let ghost old_current = current@;
                let seg = TextSegment { text: current, is_highlighted: in_highlight };
                segments.push(seg);
                current = Vec::new();
                proof {
                    lemma_segs_view_push(old_segments, seg);
                    assert(segs_view(segments@) =~= segs_view(old_segments) + seq![
                        (old_current, in_highlight),
                    ]);
                }
            }
            in_highlight = true;
            current.push(c);
            proof {
                assert(current@ =~= seq![c]);
            }
        } else if c == '\u{3011}' || c == ']' {
            current.push(c);
            if in_highlight {
                let ghost old_segments = segments@;
                let ghost old_current = current@;
                let seg = TextSegment { text: current, is_highlighted: true };
                segments.push(seg);
                current = Vec::new();
                in_highlight = false;
                proof {
                    lemma_segs_view_push(old_segments, seg);
                    assert(segs_view(segments@) =~= segs_view(old_segments) + seq![
                        (old_current, true),
                    ]);
                }
            }
        } else {
            current.push(c);
        }
        i = i + 1;
    }
    proof {
        assert(chars@.skip(n as int) =~= Seq::<char>::empty());
    }
    if current.len() > 0 {
        let ghost old_segments = segments@;
        let seg = TextSegment { text: current, is_highlighted: in_highlight };
        segments.push(seg);
        proof {
            lemma_segs_view_push(old_segments, seg);
        }
    }
    proof {
        assert(segs_view(segments@) =~= parse_segments(chars@));
    }
    segments
}

proof fn lemma_segs_view_push(segs: Seq<TextSegment>, seg: TextSegment)
    ensures
        segs_view(segs.push(seg)) =~= segs_view(segs) + seq![seg_view(seg)],
{
}

/// Concatenating the segments of a paragraph restores it: segmentation keeps
/// every character, markers included, in order.
pub proof fn lemma_parse_preserves_chars(s: Seq<char>)
    ensures
        concat_segs(parse_segments(s)) == s,
{
    lemma_parse_spec_concat(s, Seq::empty(), false);
    assert(concat_segs(parse_segments(s)) =~= s);
}

proof fn lemma_parse_spec_concat(s: Seq<char>, cur: Seq<char>, hl: bool)
    ensures
        concat_segs(parse_spec(s, cur, hl)) =~= cur + s,
    decreases s.len(),
{
    if s.len() == 0 {
        if cur.len() == 0 {
            assert(concat_segs(parse_spec(s, cur, hl)) =~= cur + s);
        } else {
            let segs = parse_spec(s, cur, hl);
            assert(segs =~= seq![(cur, hl)]);
            assert(segs[0] == (cur, hl));
            assert(segs.drop_first() =~= Seq::<(Seq<char>, bool)>::empty());
            assert(concat_segs(segs) == segs[0].0 + concat_segs(segs.drop_first()));
            assert(concat_segs(parse_spec(s, cur, hl)) =~= cur + s);
        }
    } else {
        let c = s[0];
        let rest = s.drop_first();
        if is_start_marker(c) {
            lemma_parse_spec_concat(rest, seq![c], true);
            if cur.len() > 0 {
                let tail = parse_spec(rest, seq![c], true);
                assert((seq![(cur, hl)] + tail).drop_first() =~= tail);
                assert(concat_segs(seq![(cur, hl)] + tail) =~= cur + concat_segs(tail));
                assert(cur + (seq![c] + rest) =~= cur + s);
            } else {
                assert(seq![c] + rest =~= cur + s);
            }
        } else if is_end_marker(c) && hl {
            lemma_parse_spec_concat(rest, Seq::empty(), false);
            let tail = parse_spec(rest, Seq::empty(), false);
            assert((seq![(cur.push(c), true)] + tail).drop_first() =~= tail);
            assert(concat_segs(seq![(cur.push(c), true)] + tail) =~= cur.push(c) + concat_segs(
                tail,
            ));
            assert(cur.push(c) + rest =~= cur + s);
        } else {
            lemma_parse_spec_concat(rest, cur.push(c), hl);
            assert(cur.push(c) + rest =~= cur + s);
        }
    }
}

} // verus!
