//! Keyboard interception decisions.
//!
//! The modifier-key state is explicit: a bit set of the shift, control and
//! alt keys, passed through every call rather than kept in process-wide
//! flags. An enter press is swallowed (and triggers a render) only when no
//! modifier is held, interception is enabled, the whitelist allows it, and
//! no render is already running; everything else passes through.

use vstd::prelude::*;

verus! {

/// Bit for a held shift key.
pub const SHIFT_MASK: u8 = 1;

/// Bit for a held control key.
pub const CTRL_MASK: u8 = 2;

/// Bit for a held alt key.
pub const ALT_MASK: u8 = 4;

/// Set or clear one modifier bit.
pub fn set_modifier_key(state: u8, mask: u8, pressed: bool) -> (r: u8)
    ensures
        pressed ==> r == (state | mask),
        !pressed ==> r == (state & !mask),
{
    if pressed {
        state | mask
    } else {
        state & !mask
    }
}

/// A keyboard event, reduced to what the interceptor reads.
#[derive(Clone, Copy, Debug, PartialEq, Eq, Structural)]
pub enum KeyEventKind {
    /// A shift key went down.
    ShiftDown,
    /// A shift key came up.
    ShiftUp,
    /// A control key went down.
    CtrlDown,
    /// A control key came up.
    CtrlUp,
    /// An alt key went down.
    AltDown,
    /// An alt key came up.
    AltUp,
    /// The return key went down.
    EnterDown,
    /// Any other event.
    Other,
}

/// What to do with the intercepted event.
#[derive(Clone, Copy, Debug, PartialEq, Eq, Structural)]
pub enum EnterAction {
    /// Hand the event on to the application.
    PassThrough,
    /// Swallow the event and trigger a render.
    Trigger,
}

/// The new modifier state an event leads to.
pub open spec fn next_modifier_state(state: u8, event: KeyEventKind) -> u8 {
    match event {
        KeyEventKind::ShiftDown => state | SHIFT_MASK,
        KeyEventKind::ShiftUp => state & !SHIFT_MASK,
        KeyEventKind::CtrlDown => state | CTRL_MASK,
        KeyEventKind::CtrlUp => state & !CTRL_MASK,
        KeyEventKind::AltDown => state | ALT_MASK,
        KeyEventKind::AltUp => state & !ALT_MASK,
        _ => state,
    }
}

/// Track the modifier state and decide whether an enter press is swallowed.
pub fn handle_key_event(
    state: u8,
    event: KeyEventKind,
    intercept_enter: bool,
    whitelist_ok: bool,
    processing: bool,
) -> (r: (u8, EnterAction))
    ensures
        r.0 == next_modifier_state(state, event),
        r.1 == EnterAction::Trigger <==> (event == KeyEventKind::EnterDown && state == 0
            && intercept_enter && whitelist_ok && !processing),
{
    match event {
        KeyEventKind::ShiftDown => (set_modifier_key(state, SHIFT_MASK, true), EnterAction::PassThrough),
        KeyEventKind::ShiftUp => (set_modifier_key(state, SHIFT_MASK, false), EnterAction::PassThrough),
        KeyEventKind::CtrlDown => (set_modifier_key(state, CTRL_MASK, true), EnterAction::PassThrough),
        KeyEventKind::CtrlUp => (set_modifier_key(state, CTRL_MASK, false), EnterAction::PassThrough),
        KeyEventKind::AltDown => (set_modifier_key(state, ALT_MASK, true), EnterAction::PassThrough),
        KeyEventKind::AltUp => (set_modifier_key(state, ALT_MASK, false), EnterAction::PassThrough),
        KeyEventKind::EnterDown => {
            if state != 0 {
                (state, EnterAction::PassThrough)
            } else if !intercept_enter || !whitelist_ok {
                (state, EnterAction::PassThrough)
            } else if processing {
                (state, EnterAction::PassThrough)
            } else {
                (state, EnterAction::Trigger)
            }
        },
        KeyEventKind::Other => (state, EnterAction::PassThrough),
    }
}

} // verus!
