//! The whole-image render plan.
//!
//! One render paints, onto the chosen background, first every fixed object in
//! its declared order, then the fitted caption — the caption always comes
//! last. Image objects become overlay steps carrying their position and file
//! patterns (the caller picks and decodes a matching file); text objects and
//! the caption become draw steps carrying their planned commands.

use vstd::prelude::*;
use crate::color::ColorInput;
use crate::data_model::{CharacterConfig, ObjectConfig};
use crate::layout::{
    object_text_plan, plan_object_text, plan_textarea, plan_view, textarea_plan, TextDraw,
};
use crate::metrics::{FontMetrics, MAX_TEXT_LEN};

verus! {

/// One step of a render, executed in order.
pub enum RenderStep {
    /// Composite one image picked from files matching `patterns` at
    /// `position`.
    Overlay {
        /// Top-left corner of the overlay.
        position: [i32; 2],
        /// The file patterns a matching file is picked from.
        patterns: Vec<String>,
    },
    /// Draw the planned text commands.
    DrawText(Vec<TextDraw>),
}

/// What one object contributes to the plan.
pub open spec fn step_matches_object(
    step: RenderStep,
    object: ObjectConfig,
    primary: crate::color::Color,
) -> bool {
    match object {
        ObjectConfig::Image { position, path } => step matches RenderStep::Overlay {
            position: p,
            patterns,
        } && p == position && patterns@ == path@,
        ObjectConfig::Text { text, position, font_color, font_size } => step
            matches RenderStep::DrawText(cmds) && plan_view(cmds@) == object_text_plan(
            text@,
            position[0] as int,
            position[1] as int,
            font_size as nat,
            font_color,
            primary,
        ),
    }
}

/// Whether a text object's position is within the planner's bounds.
pub open spec fn object_in_bounds(object: ObjectConfig) -> bool {
    match object {
        ObjectConfig::Text { position, .. } => {
            &&& -100000000 <= position[0] <= 100000000
            &&& -100000000 <= position[1] <= 100000000
        },
        ObjectConfig::Image { .. } => true,
    }
}

/// Plan one whole render: every fixed object in declared order, the fitted
/// caption last.
pub fn plan_render(character: &CharacterConfig, fm: &FontMetrics, caption: &str) -> (r: Vec<
    RenderStep,
>)
    requires
        fm.valid(),
        character.textarea.valid(),
        caption@.len() <= MAX_TEXT_LEN,
        forall|i: int|
            0 <= i < character.objects@.len() ==> object_in_bounds(
                #[trigger] character.objects@[i],
            ),
    ensures
        r@.len() == character.objects@.len() + 1,
        forall|i: int|
            0 <= i < character.objects@.len() ==> step_matches_object(
                #[trigger] r@[i],
                character.objects@[i],
                character.primary_color,
            ),
        r@.last() matches RenderStep::DrawText(cmds) && plan_view(cmds@) == textarea_plan(
            *fm,
            caption@,
            character.textarea,
            character.primary_color,
        ),
{
    let n = character.objects.len();
    let mut steps: Vec<RenderStep> = Vec::new();
    let mut i: usize = 0;
    while i < n
        invariant
            fm.valid(),
            n == character.objects@.len(),
            i <= n,
            steps@.len() == i,
            forall|j: int|
                0 <= j < n ==> object_in_bounds(#[trigger] character.objects@[j]),
            forall|j: int|
                0 <= j < i ==> step_matches_object(
                    #[trigger] steps@[j],
                    character.objects@[j],
                    character.primary_color,
                ),
        decreases n - i,
    {
        let step = match &character.objects[i] {
            ObjectConfig::Image { position, path } => {
                let mut patterns: Vec<String> = Vec::new();
                copy_strings(&mut patterns, path);
                RenderStep::Overlay { position: *position, patterns }
            },
            ObjectConfig::Text { text, position, font_color, font_size } => {
                RenderStep::DrawText(
                    plan_object_text(
                        text.as_str(),
                        *position,
                        font_color,
                        *font_size,
                        character.primary_color,
                    ),
                )
            },
        };
        steps.push(step);
        i = i + 1;
    }
    let caption_cmds = plan_textarea(caption, fm, &character.textarea, character.primary_color);
    steps.push(RenderStep::DrawText(caption_cmds));
    steps
}

/// Append value-equal copies of `src` to `dst`.
fn copy_strings(dst: &mut Vec<String>, src: &Vec<String>)
    ensures
        final(dst)@ == old(dst)@ + src@,
{
    let n = src.len();
    let mut i: usize = 0;
    while i < n
        invariant
            n == src@.len(),
            i <= n,
            dst@ == old(dst)@ + src@.take(i as int),
        decreases n - i,
    {
        dst.push(src[i].clone());
        proof {
            assert(old(dst)@ + src@.take(i as int).push(src@[i as int]) =~= old(dst)@ + src@.take(
                i + 1,
            ));
        }
        i = i + 1;
    }
    proof {
        assert(src@.take(n as int) =~= src@);
        assert(dst@ =~= old(dst)@ + src@);
    }
}

} // verus!
