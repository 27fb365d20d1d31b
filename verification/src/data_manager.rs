//! Character profiles: merging raw profiles against the template, and the
//! resolved profile store.
//!
//! Pattern lists are kept sorted (by code point) and free of duplicates.

use vstd::prelude::*;
use vstd::string::{StrSliceExecFns, StringExecFns};
use crate::color::{black_spec, resolve_color, Color, ColorInput};
use crate::data_model::{CharacterConfig, ObjectConfig, TextAreaConfig};

verus! {

// ---------------------------------------------------------------------------
// Lexicographic order on strings
// ---------------------------------------------------------------------------
/// Whether `a` comes at or before `b` by code points.
pub open spec fn lex_le(a: Seq<char>, b: Seq<char>) -> bool
    decreases a.len(),
{
    if a.len() == 0 {
        true
    } else if b.len() == 0 {
        false
    } else if (a[0] as int) < (b[0] as int) {
        true
    } else if (a[0] as int) > (b[0] as int) {
        false
    } else {
        lex_le(a.drop_first(), b.drop_first())
    }
}

/// Whether `a` comes strictly before `b`.
pub open spec fn lex_lt(a: Seq<char>, b: Seq<char>) -> bool {
    lex_le(a, b) && a != b
}

/// Any two strings are ordered one way or the other.
pub proof fn lemma_lex_total(a: Seq<char>, b: Seq<char>)
    ensures
        lex_le(a, b) || lex_le(b, a),
    decreases a.len(),
{
    if a.len() > 0 && b.len() > 0 && a[0] == b[0] {
        lemma_lex_total(a.drop_first(), b.drop_first());
    }
}

/// Strings ordered both ways are equal.
pub proof fn lemma_lex_antisym(a: Seq<char>, b: Seq<char>)
    requires
        lex_le(a, b),
        lex_le(b, a),
    ensures
        a == b,
    decreases a.len(),
{
    if a.len() == 0 {
        assert(b.len() == 0);
        assert(a =~= b);
    } else {
        assert(a[0] == b[0]);
        lemma_lex_antisym(a.drop_first(), b.drop_first());
        assert forall|i: int| 0 <= i < a.len() implies a[i] == b[i] by {
            if i > 0 {
                assert(a[i] == a.drop_first()[i - 1]);
                assert(b[i] == b.drop_first()[i - 1]);
            }
        }
        assert(a =~= b);
    }
}

/// The order is transitive.
pub proof fn lemma_lex_trans(a: Seq<char>, b: Seq<char>, c: Seq<char>)
    requires
        lex_le(a, b),
        lex_le(b, c),
    ensures
        lex_le(a, c),
    decreases a.len(),
{
    if a.len() > 0 && b.len() > 0 && c.len() > 0 && a[0] == b[0] && b[0] == c[0] {
        lemma_lex_trans(a.drop_first(), b.drop_first(), c.drop_first());
    }
}

/// Strict order is transitive.
pub proof fn lemma_lex_lt_trans(a: Seq<char>, b: Seq<char>, c: Seq<char>)
    requires
        lex_lt(a, b),
        lex_lt(b, c),
    ensures
        lex_lt(a, c),
{
    lemma_lex_trans(a, b, c);
    if a == c {
        lemma_lex_antisym(a, b);
    }
}

/// Whether `a` comes strictly before `b` by code points.
pub fn str_lt(a: &String, b: &String) -> (r: bool)
    ensures
        r == lex_lt(a@, b@),
{
    let sa = a.as_str();
    let sb = b.as_str();
    let la = sa.unicode_len();
    let lb = sb.unicode_len();
    let n = if la <= lb {
        la
    } else {
        lb
    };
    let mut i: usize = 0;
    proof {
        assert(a@.skip(0) =~= a@);
        assert(b@.skip(0) =~= b@);
    }
    while i < n
        invariant
            la == a@.len(),
            lb == b@.len(),
            sa@ == a@,
            sb@ == b@,
            n == if la <= lb {
                la
            } else {
                lb
            },
            i <= n,
            forall|j: int| 0 <= j < i ==> a@[j] == b@[j],
            lex_le(a@, b@) == lex_le(a@.skip(i as int), b@.skip(i as int)),
        decreases n - i,
    {
        let ca = sa.get_char(i);
        let cb = sb.get_char(i);
        proof {
            assert(a@.skip(i as int)[0] == a@[i as int]);
            assert(b@.skip(i as int)[0] == b@[i as int]);
            assert(a@.skip(i as int).drop_first() =~= a@.skip(i + 1));
            assert(b@.skip(i as int).drop_first() =~= b@.skip(i + 1));
        }
        if ca != cb {
            proof {
                if (ca as u32) < (cb as u32) {
                    assert(lex_le(a@, b@));
                    assert(a@[i as int] != b@[i as int]);
                    assert(a@ != b@);
                } else {
                    assert(!lex_le(a@, b@));
                }
            }
            return (ca as u32) < (cb as u32);
        }
        i = i + 1;
    }
    proof {
        if la < lb {
            assert(a@.skip(n as int) =~= Seq::<char>::empty());
            assert(lex_le(a@, b@));
            assert(a@.len() != b@.len());
            assert(a@ != b@);
        } else if la > lb {
            assert(b@.skip(n as int) =~= Seq::<char>::empty());
            assert(a@.skip(n as int).len() > 0);
            assert(!lex_le(a@, b@));
        } else {
            assert(a@ =~= b@);
        }
    }
    la < lb
}

// ---------------------------------------------------------------------------
// Sorted, duplicate-free pattern lists
// ---------------------------------------------------------------------------
/// Whether some string in `l` holds the characters `s`.
pub open spec fn contains_str(l: Seq<String>, s: Seq<char>) -> bool {
    exists|i: int| 0 <= i < l.len() && (#[trigger] l[i])@ == s
}

/// Whether `l` is strictly sorted by code points (so also duplicate-free).
pub open spec fn strictly_sorted(l: Seq<String>) -> bool {
    forall|i: int, j: int| 0 <= i < j < l.len() ==> lex_lt((#[trigger] l[i])@, (#[trigger] l[j])@)
}

/// Sort `v` by code points and drop duplicate strings: the result is strictly
/// sorted and holds exactly the strings of `v`.
pub fn sort_dedup_strings(v: Vec<String>) -> (r: Vec<String>)
    ensures
        strictly_sorted(r@),
        forall|s: Seq<char>| contains_str(r@, s) == contains_str(v@, s),
{
    let n = v.len();
    let mut out: Vec<String> = Vec::new();
    let mut idx: usize = 0;
    while idx < n
        invariant
            n == v@.len(),
            idx <= n,
            strictly_sorted(out@),
            forall|s: Seq<char>|
                #[trigger] contains_str(out@, s) == contains_str(v@.take(idx as int), s),
        decreases n - idx,
    {
        let x = v[idx].clone();
        let ghost xv = x@;
        let ghost old_out = out@;
        let m = out.len();
        let mut pos: usize = 0;
        let mut stop = false;
        while pos < m && !stop
            invariant
                m == out@.len(),
                out@ == old_out,
                pos <= m,
                x@ == xv,
                forall|j: int| 0 <= j < pos ==> lex_lt((#[trigger] out@[j])@, xv),
                stop ==> pos < m && !lex_lt(out@[pos as int]@, xv),
            decreases m - pos, (if stop {
                0int
            } else {
                1int
            }),
        {
            if str_lt(&out[pos], &x) {
                pos = pos + 1;
            } else {
                stop = true;
            }
        }
        let duplicate = pos < m && out[pos].eq(&x);
        if duplicate {
            proof {
                assert(out@[pos as int]@ == xv);
                assert(contains_str(out@, xv));
                assert(v@.take(idx + 1)[idx as int]@ == xv);
                assert forall|s: Seq<char>| #[trigger]
                    contains_str(out@, s) == contains_str(v@.take(idx + 1), s) by {
                    lemma_contains_take_step(v@, idx as int, s, out@);
                }
            }
        } else {
            proof {
                if pos < m {
                    lemma_lex_not_lt(out@[pos as int]@, xv);
                }
            }
            out.insert(pos, x);
            proof {
                lemma_insert_sorted(old_out, xv, pos as int, out@);
                assert forall|s: Seq<char>| #[trigger]
                    contains_str(out@, s) == contains_str(v@.take(idx + 1), s) by {
                    lemma_contains_insert(old_out, out@, xv, pos as int, s);
                    lemma_contains_take_step(v@, idx as int, s, old_out);
                }
            }
        }
        idx = idx + 1;
    }
    proof {
        assert(v@.take(n as int) =~= v@);
    }
    out
}

/// Not strictly before means at or after.
proof fn lemma_lex_not_lt(a: Seq<char>, b: Seq<char>)
    requires
        !lex_lt(a, b),
    ensures
        lex_le(b, a),
{
    lemma_lex_total(a, b);
    if a == b {
        lemma_lex_total(b, a);
        if !lex_le(b, a) {
            assert(lex_le(a, b));
            assert(b =~= a);
        }
    }
}

/// Inserting at the found position keeps the list strictly sorted.
proof fn lemma_insert_sorted(old: Seq<String>, xv: Seq<char>, pos: int, new: Seq<String>)
    requires
        0 <= pos <= old.len(),
        strictly_sorted(old),
        forall|j: int| 0 <= j < pos ==> lex_lt((#[trigger] old[j])@, xv),
        pos < old.len() ==> lex_le(xv, old[pos]@) && old[pos]@ != xv,
        new.len() == old.len() + 1,
        new[pos]@ == xv,
        forall|j: int| 0 <= j < pos ==> new[j] == old[j],
        forall|j: int| pos < j < new.len() ==> new[j] == old[j - 1],
    ensures
        strictly_sorted(new),
{
    assert forall|i: int, j: int| 0 <= i < j < new.len() implies lex_lt(
        (#[trigger] new[i])@,
        (#[trigger] new[j])@,
    ) by {
        if i < pos && j < pos {
        } else if i < pos && j == pos {
            assert(lex_lt(old[i]@, xv));
        } else if i < pos && j > pos {
            if i == j - 1 {
            } else {
                assert(lex_lt(old[i]@, old[j - 1]@));
            }
        } else if i == pos {
            assert(j > pos);
            assert(lex_le(xv, old[pos]@) && old[pos]@ != xv);
            if j - 1 == pos {
            } else {
                assert(lex_lt(old[pos]@, old[j - 1]@));
                lemma_lex_lt_trans(xv, old[pos]@, old[j - 1]@);
            }
        } else {
            assert(lex_lt(old[i - 1]@, old[j - 1]@));
        }
    }
}

/// What the inserted list holds: the old strings and the new one.
proof fn lemma_contains_insert(old: Seq<String>, new: Seq<String>, xv: Seq<char>, pos: int, s: Seq<char>)
    requires
        0 <= pos <= old.len(),
        new.len() == old.len() + 1,
        new[pos]@ == xv,
        forall|j: int| 0 <= j < pos ==> new[j] == old[j],
        forall|j: int| pos < j < new.len() ==> new[j] == old[j - 1],
    ensures
        contains_str(new, s) == (contains_str(old, s) || s == xv),
{
    if contains_str(new, s) {
        let i = choose|i: int| 0 <= i < new.len() && (#[trigger] new[i])@ == s;
        if i < pos {
            assert(old[i]@ == s);
        } else if i > pos {
            assert(old[i - 1]@ == s);
        }
    }
    if contains_str(old, s) {
        let i = choose|i: int| 0 <= i < old.len() && (#[trigger] old[i])@ == s;
        if i < pos {
            assert(new[i]@ == s);
        } else {
            assert(new[i + 1]@ == s);
        }
    }
    if s == xv {
        assert(new[pos]@ == s);
    }
}

/// Taking one more input element adds exactly its characters.
proof fn lemma_contains_take_step(v: Seq<String>, idx: int, s: Seq<char>, old_out: Seq<String>)
    requires
        0 <= idx < v.len(),
    ensures
        contains_str(v.take(idx + 1), s) == (contains_str(v.take(idx), s) || v[idx]@ == s),
{
    if contains_str(v.take(idx + 1), s) {
        let i = choose|i: int| 0 <= i < v.take(idx + 1).len() && (#[trigger] v.take(idx + 1)[i])@
            == s;
        if i < idx {
            assert(v.take(idx)[i]@ == s);
        }
    }
    if contains_str(v.take(idx), s) {
        let i = choose|i: int| 0 <= i < v.take(idx).len() && (#[trigger] v.take(idx)[i])@ == s;
        assert(v.take(idx + 1)[i]@ == s);
    }
    if v[idx]@ == s {
        assert(v.take(idx + 1)[idx]@ == s);
    }
}

// ---------------------------------------------------------------------------
// Paths and patterns
// ---------------------------------------------------------------------------
/// The data directory under a base directory.
pub fn get_data_dir(base_dir: &str) -> (r: String)
    ensures
        r@ == base_dir@ + "/data"@,
{
    let mut s = String::from_str(base_dir);
    s.append("/data");
    s
}

/// `pattern` with every `%c` replaced by `id`.
pub open spec fn replace_pc(s: Seq<char>, id: Seq<char>) -> Seq<char>
    decreases s.len(),
{
    if s.len() >= 2 && s[0] == '%' && s[1] == 'c' {
        id + replace_pc(s.skip(2), id)
    } else if s.len() == 0 {
        Seq::empty()
    } else {
        seq![s[0]] + replace_pc(s.drop_first(), id)
    }
}

/// Substitute the character's identifier into a file pattern.
pub fn resolve_pattern(pattern: &str, id: &str) -> (r: String)
    ensures
        r@ == replace_pc(pattern@, id@),
{
    let n = pattern.unicode_len();
    let mut out = String::new();
    let mut i: usize = 0;
    proof {
        assert(pattern@.skip(0) =~= pattern@);
    }
    while i < n
        invariant
            n == pattern@.len(),
            i <= n,
            out@ + replace_pc(pattern@.skip(i as int), id@) =~= replace_pc(pattern@, id@),
        decreases n - i,
    {
        proof {
            assert(pattern@.skip(i as int)[0] == pattern@[i as int]);
        }
        if i + 1 < n && pattern.get_char(i) == '%' && pattern.get_char(i + 1) == 'c' {
            proof {
                assert(pattern@.skip(i as int)[1] == pattern@[i + 1]);
                assert(pattern@.skip(i as int).skip(2) =~= pattern@.skip(i + 2));
            }
            out.append(id);
            i = i + 2;
        } else {
            proof {
                assert(pattern@.skip(i as int).drop_first() =~= pattern@.skip(i + 1));
                if pattern@.skip(i as int).len() >= 2 && pattern@[i as int] == '%' {
                    assert(pattern@.skip(i as int)[1] == pattern@[i + 1]);
                }
            }
            let piece = pattern.substring_char(i, i + 1);
            out.append(piece);
            proof {
                assert(piece@ =~= seq![pattern@[i as int]]);
            }
            i = i + 1;
        }
    }
    proof {
        assert(pattern@.skip(n as int) =~= Seq::<char>::empty());
        assert(replace_pc(pattern@.skip(n as int), id@) =~= Seq::<char>::empty());
        assert(out@ =~= replace_pc(pattern@, id@));
    }
    out
}

// ---------------------------------------------------------------------------
// Raw profiles and the template
// ---------------------------------------------------------------------------
/// The template: defaults that every character profile may rely on.
pub struct Template {
    /// Default background file patterns.
    pub backgrounds: Option<Vec<String>>,
    /// Default font file name.
    pub font: Option<String>,
    /// Default primary color.
    pub primary_color: Option<ColorInput>,
    /// Objects every character paints.
    pub objects: Option<Vec<ObjectConfig>>,
    /// Default caption region.
    pub textarea: Option<TextAreaConfig>,
}

/// One character profile as written, before the template fills the gaps.
pub struct CharacterConfigRaw {
    /// The character's display name.
    pub name: String,
    /// Its own background file patterns.
    pub backgrounds: Option<Vec<String>>,
    /// Its own font file name.
    pub font: Option<String>,
    /// Its own primary color.
    pub primary_color: Option<ColorInput>,
    /// Its own objects, painted after the template's.
    pub objects: Option<Vec<ObjectConfig>>,
    /// Its own caption region.
    pub textarea: Option<TextAreaConfig>,
}

/// The whole profile file: a template and the characters by identifier.
pub struct DataConfig {
    /// The shared defaults.
    pub template: Template,
    /// Identifier and raw profile of each character, in order.
    pub characters: Vec<(String, CharacterConfigRaw)>,
}

/// Why a profile set was rejected.
pub enum DataError {
    /// The named character ends up with no background patterns.
    MissingBackgrounds(String),
    /// The named character ends up with no font.
    MissingFont(String),
    /// The named character ends up with no caption region.
    MissingTextarea(String),
    /// The profile set holds no characters at all.
    NoCharacters,
}

/// The strings of an optional list, or nothing.
pub open spec fn opt_strings(o: Option<Vec<String>>) -> Seq<String> {
    match o {
        Some(v) => v@,
        None => Seq::empty(),
    }
}

/// The objects of an optional list, or nothing.
pub open spec fn opt_objects(o: Option<Vec<ObjectConfig>>) -> Seq<ObjectConfig> {
    match o {
        Some(v) => v@,
        None => Seq::empty(),
    }
}

/// A character's background patterns: the template's, then its own.
pub open spec fn merged_backgrounds(t: Template, raw: CharacterConfigRaw) -> Seq<String> {
    opt_strings(t.backgrounds) + opt_strings(raw.backgrounds)
}

/// A character's objects: the template's, then its own.
pub open spec fn merged_objects(t: Template, raw: CharacterConfigRaw) -> Seq<ObjectConfig> {
    opt_objects(t.objects) + opt_objects(raw.objects)
}

/// Whether a font is available for the character.
pub open spec fn has_font(t: Template, raw: CharacterConfigRaw) -> bool {
    raw.font is Some || t.font is Some
}

/// The font chosen for the character: its own over the template's.
pub open spec fn sel_font(t: Template, raw: CharacterConfigRaw) -> String {
    if raw.font is Some {
        raw.font->0
    } else {
        t.font->0
    }
}

/// The primary color: the character's, else the template's, resolved against
/// black; black if neither is given.
pub open spec fn sel_primary(t: Template, raw: CharacterConfigRaw) -> Color {
    if raw.primary_color is Some {
        resolve_color(raw.primary_color->0, black_spec())
    } else if t.primary_color is Some {
        resolve_color(t.primary_color->0, black_spec())
    } else {
        black_spec()
    }
}

/// Whether a caption region is available for the character.
pub open spec fn has_textarea(t: Template, raw: CharacterConfigRaw) -> bool {
    raw.textarea is Some || t.textarea is Some
}

/// The caption region chosen for the character: its own over the template's.
pub open spec fn sel_textarea(t: Template, raw: CharacterConfigRaw) -> TextAreaConfig {
    if raw.textarea is Some {
        raw.textarea->0
    } else {
        t.textarea->0
    }
}

/// Whether the template leaves the character with everything it needs.
pub open spec fn raw_complete(t: Template, raw: CharacterConfigRaw) -> bool {
    &&& merged_backgrounds(t, raw).len() > 0
    &&& has_font(t, raw)
    &&& has_textarea(t, raw)
}

/// The error an incomplete character is reported with.
pub open spec fn char_error(t: Template, entry: (String, CharacterConfigRaw)) -> DataError {
    if merged_backgrounds(t, entry.1).len() == 0 {
        DataError::MissingBackgrounds(entry.0)
    } else if !has_font(t, entry.1) {
        DataError::MissingFont(entry.0)
    } else {
        DataError::MissingTextarea(entry.0)
    }
}

/// Whether `i` is the first incomplete character.
pub open spec fn is_first_incomplete(
    t: Template,
    chars: Seq<(String, CharacterConfigRaw)>,
    i: int,
) -> bool {
    &&& 0 <= i < chars.len()
    &&& !raw_complete(t, chars[i].1)
    &&& forall|j: int| 0 <= j < i ==> raw_complete(t, #[trigger] chars[j].1)
}

/// Whether two objects carry the same data.
pub open spec fn obj_matches(a: ObjectConfig, b: ObjectConfig) -> bool {
    match (a, b) {
        (
            ObjectConfig::Text { text: ta, position: pa, font_color: ca, font_size: sa },
            ObjectConfig::Text { text: tb, position: pb, font_color: cb, font_size: sb },
        ) => ta == tb && pa == pb && ca == cb && sa == sb,
        (
            ObjectConfig::Image { position: pa, path: la },
            ObjectConfig::Image { position: pb, path: lb },
        ) => pa == pb && la@ == lb@,
        _ => false,
    }
}

/// One fully resolved character, compared field by field against the merge.
pub open spec fn char_resolved(
    t: Template,
    entry: (String, CharacterConfigRaw),
    c: CharacterConfig,
) -> bool {
    &&& c.id == entry.0
    &&& c.name == entry.1.name
    &&& c.font == sel_font(t, entry.1)
    &&& c.primary_color == sel_primary(t, entry.1)
    &&& c.textarea == sel_textarea(t, entry.1)
    &&& c.objects@.len() == merged_objects(t, entry.1).len()
    &&& forall|k: int|
        0 <= k < c.objects@.len() ==> obj_matches(
            #[trigger] c.objects@[k],
            merged_objects(t, entry.1)[k],
        )
    &&& strictly_sorted(c.backgrounds@)
    &&& forall|s: Seq<char>|
        #[trigger] contains_str(c.backgrounds@, s) == contains_str(
            merged_backgrounds(t, entry.1),
            s,
        )
}

/// A whole resolved character list.
pub open spec fn chars_resolved(
    t: Template,
    chars: Seq<(String, CharacterConfigRaw)>,
    out: Seq<CharacterConfig>,
) -> bool {
    &&& out.len() == chars.len()
    &&& forall|i: int| 0 <= i < chars.len() ==> char_resolved(t, chars[i], #[trigger] out[i])
}

/// Append value-equal copies of `src` to `dst`.
fn extend_strings(dst: &mut Vec<String>, src: &Vec<String>)
    ensures
        final(dst)@ == old(dst)@ + src@,
{
    let n = src.len();
    let mut i: usize = 0;
    while i < n
        invariant
            n == src@.len(),
            i <= n,
            dst@ == old(dst)@ + src@.take(i as int),
        decreases n - i,
    {
        dst.push(src[i].clone());
        proof {
            assert(old(dst)@ + src@.take(i as int).push(src@[i as int]) =~= old(dst)@ + src@.take(
                i + 1,
            ));
        }
        i = i + 1;
    }
    proof {
        assert(src@.take(n as int) =~= src@);
        assert(dst@ =~= old(dst)@ + src@);
    }
}

/// A value-equal copy of a color specification.
fn clone_color(ci: &ColorInput) -> (r: ColorInput)
    ensures
        r == *ci,
{
    match ci {
        ColorInput::RgbaArr(a) => ColorInput::RgbaArr(*a),
        ColorInput::RgbArr(a) => ColorInput::RgbArr(*a),
        ColorInput::Literal(s) => ColorInput::Literal(s.clone()),
    }
}

/// A value-equal copy of a caption region.
fn clone_textarea(t: &TextAreaConfig) -> (r: TextAreaConfig)
    ensures
        r == *t,
{
    TextAreaConfig {
        position: t.position,
        size: t.size,
        font_color: clone_color(&t.font_color),
        highlight: match &t.highlight {
            Some(ci) => Some(clone_color(ci)),
            None => None,
        },
        max_font_size: t.max_font_size,
        shadow_offset: t.shadow_offset,
        line_spacing: t.line_spacing,
        align: t.align,
        valign: t.valign,
    }
}

/// A copy of an object carrying the same data.
fn clone_object(o: &ObjectConfig) -> (r: ObjectConfig)
    ensures
        obj_matches(r, *o),
{
    match o {
        ObjectConfig::Text { text, position, font_color, font_size } => ObjectConfig::Text {
            text: text.clone(),
            position: *position,
            font_color: clone_color(font_color),
            font_size: *font_size,
        },
        ObjectConfig::Image { position, path } => {
            let mut copied: Vec<String> = Vec::new();
            extend_strings(&mut copied, path);
            proof {
                assert(copied@ =~= path@);
            }
            ObjectConfig::Image { position: *position, path: copied }
        },
    }
}

/// Append copies of `src`'s objects to `dst`.
fn extend_objects(dst: &mut Vec<ObjectConfig>, src: &Vec<ObjectConfig>)
    ensures
        final(dst)@.len() == old(dst)@.len() + src@.len(),
        forall|k: int|
            0 <= k < old(dst)@.len() ==> #[trigger] final(dst)@[k] == old(dst)@[k],
        forall|k: int|
            old(dst)@.len() <= k < final(dst)@.len() ==> obj_matches(
                #[trigger] final(dst)@[k],
                src@[k - old(dst)@.len()],
            ),
{
    let n = src.len();
    let mut i: usize = 0;
    while i < n
        invariant
            n == src@.len(),
            i <= n,
            dst@.len() == old(dst)@.len() + i,
            forall|k: int| 0 <= k < old(dst)@.len() ==> #[trigger] dst@[k] == old(dst)@[k],
            forall|k: int|
                old(dst)@.len() <= k < dst@.len() ==> obj_matches(
                    #[trigger] dst@[k],
                    src@[k - old(dst)@.len()],
                ),
        decreases n - i,
    {
        let c = clone_object(&src[i]);
        dst.push(c);
        i = i + 1;
    }
}

/// Resolve every raw character against the template: merge and sort its
/// background patterns, pick its font, primary color, objects and caption
/// region, and reject the first character left incomplete.
pub fn load_data(config: DataConfig) -> (r: Result<Vec<CharacterConfig>, DataError>)
    ensures
        (r is Ok) == (forall|i: int|
            0 <= i < config.characters@.len() ==> raw_complete(
                config.template,
                (#[trigger] config.characters@[i]).1,
            )),
        r is Ok ==> chars_resolved(config.template, config.characters@, r->Ok_0@),
        r is Err ==> exists|i: int|
            #[trigger] is_first_incomplete(config.template, config.characters@, i) && r->Err_0
                == char_error(config.template, config.characters@[i]),
{
    let t = &config.template;
    let chars = &config.characters;
    let n = chars.len();
    let mut out: Vec<CharacterConfig> = Vec::new();
    let mut i: usize = 0;
    while i < n
        invariant
            n == chars@.len(),
            i <= n,
            t == &config.template,
            chars == &config.characters,
            out@.len() == i,
            forall|j: int| 0 <= j < i ==> raw_complete(config.template, (#[trigger] chars@[j]).1),
            forall|j: int|
                0 <= j < i ==> char_resolved(config.template, chars@[j], #[trigger] out@[j]),
        decreases n - i,
    {
        let entry = &chars[i];
        let raw = &entry.1;
        let mut bgs: Vec<String> = Vec::new();
        match &t.backgrounds {
            Some(tb) => extend_strings(&mut bgs, tb),
            None => (),
        }
        match &raw.backgrounds {
            Some(cb) => extend_strings(&mut bgs, cb),
            None => (),
        }
        proof {
            assert(bgs@ =~= merged_backgrounds(config.template, chars@[i as int].1));
        }
        if bgs.len() == 0 {
            proof {
                assert(is_first_incomplete(config.template, chars@, i as int));
            }
            return Result::Err(DataError::MissingBackgrounds(entry.0.clone()));
        }
        let backgrounds = sort_dedup_strings(bgs);
        let font = match &raw.font {
            Some(f) => f.clone(),
            None => match &t.font {
                Some(f) => f.clone(),
                None => {
                    proof {
                        assert(is_first_incomplete(config.template, chars@, i as int));
                    }
                    return Result::Err(DataError::MissingFont(entry.0.clone()));
                },
            },
        };
        let primary_color = match &raw.primary_color {
            Some(ci) => ci.to_rgba(crate::color::black()),
            None => match &t.primary_color {
                Some(ci) => ci.to_rgba(crate::color::black()),
                None => crate::color::black(),
            },
        };
        let mut objects: Vec<ObjectConfig> = Vec::new();
        match &t.objects {
            Some(to) => extend_objects(&mut objects, to),
            None => (),
        }
        proof {
            assert(objects@.len() == opt_objects(config.template.objects).len());
            assert(forall|k: int|
                0 <= k < objects@.len() ==> obj_matches(
                    #[trigger] objects@[k],
                    opt_objects(config.template.objects)[k],
                ));
        }
        let ghost objs_after_t = objects@;
        match &raw.objects {
            Some(co) => extend_objects(&mut objects, co),
            None => (),
        }
        proof {
            assert(objects@.len() == objs_after_t.len() + opt_objects(
                chars@[i as int].1.objects,
            ).len());
            assert(forall|k: int|
                0 <= k < objs_after_t.len() ==> #[trigger] objects@[k] == objs_after_t[k]);
            assert(forall|k: int|
                objs_after_t.len() <= k < objects@.len() ==> obj_matches(
                    #[trigger] objects@[k],
                    opt_objects(chars@[i as int].1.objects)[k - objs_after_t.len()],
                ));
        }
        let textarea = match &raw.textarea {
            Some(ta) => clone_textarea(ta),
            None => match &t.textarea {
                Some(ta) => clone_textarea(ta),
                None => {
                    proof {
                        assert(is_first_incomplete(config.template, chars@, i as int));
                    }
                    return Result::Err(DataError::MissingTextarea(entry.0.clone()));
                },
            },
        };
        let c = CharacterConfig {
            id: entry.0.clone(),
            name: raw.name.clone(),
            backgrounds,
            font,
            primary_color,
            objects,
            textarea,
        };
        proof {
            let ent = chars@[i as int];
            let merged = merged_objects(config.template, ent.1);
            assert(c.id == ent.0);
            assert(c.name == ent.1.name);
            assert(c.font == sel_font(config.template, ent.1));
            assert(c.primary_color == sel_primary(config.template, ent.1));
            assert(c.textarea == sel_textarea(config.template, ent.1));
            assert(c.objects@.len() == merged.len());
            assert forall|k: int| 0 <= k < c.objects@.len() implies obj_matches(
                #[trigger] c.objects@[k],
                merged[k],
            ) by {
                let tlen = opt_objects(config.template.objects).len() as int;
                if k < tlen {
                    assert(merged[k] == opt_objects(config.template.objects)[k]);
                    assert(c.objects@[k] == objs_after_t[k]);
                } else {
                    assert(merged[k] == opt_objects(ent.1.objects)[k - tlen]);
                }
            }
            assert(strictly_sorted(c.backgrounds@));
            assert(char_resolved(config.template, chars@[i as int], c));
        }
        out.push(c);
        i = i + 1;
    }
    Result::Ok(out)
}

// ---------------------------------------------------------------------------
// The resolved profile store
// ---------------------------------------------------------------------------
/// The resolved character profiles and the directory they live under.
pub struct DataManager {
    /// The data directory every resource path starts from.
    pub data_dir: String,
    /// The resolved profiles, in profile-file order.
    pub character_configs: Vec<CharacterConfig>,
}

impl DataManager {
    /// Resolve a profile set; a set with no usable character is rejected.
    pub fn new(data_dir: String, config: DataConfig) -> (r: Result<DataManager, DataError>)
        ensures
            (r is Ok) == (config.characters@.len() > 0 && forall|i: int|
                0 <= i < config.characters@.len() ==> raw_complete(
                    config.template,
                    (#[trigger] config.characters@[i]).1,
                )),
            r is Ok ==> r->Ok_0.data_dir == data_dir && chars_resolved(
                config.template,
                config.characters@,
                r->Ok_0.character_configs@,
            ),
    {
        let ghost cfg = config;
        match load_data(config) {
            Result::Err(e) => Result::Err(e),
            Result::Ok(v) => {
                if v.len() == 0 {
                    proof {
                        assert(cfg.characters@.len() == 0);
                    }
                    Result::Err(DataError::NoCharacters)
                } else {
                    Result::Ok(DataManager { data_dir, character_configs: v })
                }
            },
        }
    }

    /// The profile with the given identifier, if any: the first match wins.
    pub fn get_character(&self, character_id: &str) -> (r: Option<&CharacterConfig>)
        ensures
            match r {
                Some(c) => exists|i: int|
                    {
                        &&& 0 <= i < self.character_configs@.len()
                        &&& (#[trigger] self.character_configs@[i]).id@ == character_id@
                        &&& *c == self.character_configs@[i]
                        &&& forall|j: int|
                            0 <= j < i ==> (#[trigger] self.character_configs@[j]).id@
                                != character_id@
                    },
                None => forall|i: int|
                    0 <= i < self.character_configs@.len() ==> (
                    #[trigger] self.character_configs@[i]).id@ != character_id@,
            },
    {
        let n = self.character_configs.len();
        let mut i: usize = 0;
        while i < n
            invariant
                n == self.character_configs@.len(),
                i <= n,
                forall|j: int|
                    0 <= j < i ==> (#[trigger] self.character_configs@[j]).id@ != character_id@,
            decreases n - i,
        {
            if crate::text::str_eq(self.character_configs[i].id.as_str(), character_id) {
                return Option::Some(&self.character_configs[i]);
            }
            i = i + 1;
        }
        Option::None
    }

    /// All resolved profiles, in order.
    pub fn get_characters(&self) -> (r: &Vec<CharacterConfig>)
        ensures
            r == &self.character_configs,
    {
        &self.character_configs
    }

    /// Where the given profile's font file lives.
    pub fn get_font_path(&self, character_config: &CharacterConfig) -> (r: String)
        ensures
            r@ == self.data_dir@ + "/fonts/"@ + character_config.font@,
    {
        let mut s = self.data_dir.clone();
        s.append("/fonts/");
        s.append(character_config.font.as_str());
        s
    }

    /// Where background images live.
    pub fn background_dir(&self) -> (r: String)
        ensures
            r@ == self.data_dir@ + "/backgrounds"@,
    {
        let mut s = self.data_dir.clone();
        s.append("/backgrounds");
        s
    }

    /// Where overlay images live.
    pub fn images_dir(&self) -> (r: String)
        ensures
            r@ == self.data_dir@ + "/images"@,
    {
        let mut s = self.data_dir.clone();
        s.append("/images");
        s
    }
}

/// The file patterns of all image objects, in order.
pub open spec fn image_patterns(objs: Seq<ObjectConfig>) -> Seq<String>
    decreases objs.len(),
{
    if objs.len() == 0 {
        Seq::empty()
    } else {
        (match objs[0] {
            ObjectConfig::Image { path, .. } => path@,
            _ => Seq::empty(),
        }) + image_patterns(objs.drop_first())
    }
}

/// The distinct image patterns of a profile's objects, sorted.
pub fn collect_object_patterns(objects: &Vec<ObjectConfig>) -> (r: Vec<String>)
    ensures
        strictly_sorted(r@),
        forall|s: Seq<char>|
            #[trigger] contains_str(r@, s) == contains_str(image_patterns(objects@), s),
{
    let n = objects.len();
    let mut gathered: Vec<String> = Vec::new();
    let mut i: usize = 0;
    proof {
        assert(objects@.skip(0) =~= objects@);
    }
    while i < n
        invariant
            n == objects@.len(),
            i <= n,
            gathered@ + image_patterns(objects@.skip(i as int)) =~= image_patterns(objects@),
        decreases n - i,
    {
        proof {
            assert(objects@.skip(i as int)[0] == objects@[i as int]);
            assert(objects@.skip(i as int).drop_first() =~= objects@.skip(i + 1));
        }
        match &objects[i] {
            ObjectConfig::Image { path, .. } => {
                extend_strings(&mut gathered, path);
            },
            _ => (),
        }
        i = i + 1;
    }
    proof {
        assert(objects@.skip(n as int) =~= Seq::<ObjectConfig>::empty());
        assert(gathered@ =~= image_patterns(objects@));
    }
    sort_dedup_strings(gathered)
}


} // verus!
