//! User settings and the control-menu decision logic.
//!
//! The settings are plain values; reading and writing them to disk is the
//! caller's business. The functions here state exactly how each control
//! message or hotkey changes the settings and what side action it asks for.

use vstd::prelude::*;
use vstd::string::StringExecFns;

verus! {

/// What happens to a finished image: copied, pasted, or pasted and sent.
#[derive(Clone, Copy, Debug, PartialEq, Eq, Structural)]
pub enum ProcessMode {
    /// Only copy the image to the clipboard.
    Copy,
    /// Copy and paste it.
    Paste,
    /// Copy, paste and send it.
    Send,
}

/// A control-menu or hotkey request.
pub enum ControlMessage {
    /// Switch to the character with this identifier.
    SwitchCharacter(String),
    /// Toggle between copy-only and paste.
    ToggleAutoPaste,
    /// Toggle between paste and send.
    ToggleAutoSend,
    /// Toggle interception of the enter key.
    ToggleIntercept,
    /// Toggle the application whitelist.
    ToggleWhitelist,
    /// Open the help page.
    Help,
    /// Quit the application.
    Quit,
}

/// The user's settings.
pub struct Config {
    /// Identifier of the active character.
    pub current_character: String,
    /// Whether a finished image is pasted.
    pub auto_paste: bool,
    /// Whether a pasted image is also sent.
    pub auto_send: bool,
    /// Whether the enter key is intercepted to trigger a render.
    pub intercept_enter: bool,
    /// Whether rendering is confined to whitelisted applications.
    pub enable_whitelist: bool,
    /// Names of the whitelisted applications.
    pub whitelist: Vec<String>,
    /// Byte budget for the finished image, in kilobytes; 0 disables it.
    pub max_image_size: usize,
    /// Longest caption sent through a render; 0 disables the limit.
    pub max_chars: usize,
}

/// The default of a setting that starts enabled.
pub fn default_true() -> (r: bool)
    ensures
        r == true,
{
    true
}

/// The default of a setting that starts disabled.
pub fn default_false() -> (r: bool)
    ensures
        r == false,
{
    false
}

/// The default application whitelist.
pub fn default_whitelist() -> (r: Vec<String>)
    ensures
        r@.len() == 4,
        r@[0]@ == "WeChat"@,
        r@[1]@ == "Weixin"@,
        r@[2]@ == "QQ"@,
        r@[3]@ == "TIM"@,
{
    let mut r: Vec<String> = Vec::new();
    r.push(String::from_str("WeChat"));
    r.push(String::from_str("Weixin"));
    r.push(String::from_str("QQ"));
    r.push(String::from_str("TIM"));
    r
}

/// The default image byte budget, in kilobytes.
pub fn default_max_image_size() -> (r: usize)
    ensures
        r == 256,
{
    256
}

impl Default for Config {
    /// Paste but do not send, do not intercept enter, use the default
    /// whitelist and image budget, and cap no caption length.
    fn default() -> (r: Config)
        ensures
            r.current_character@ == Seq::<char>::empty(),
            r.auto_paste == true,
            r.auto_send == false,
            r.intercept_enter == false,
            r.enable_whitelist == true,
            r.whitelist@.len() == 4,
            r.max_image_size == 256,
            r.max_chars == 0,
    {
        Config {
            current_character: String::new(),
            auto_paste: default_true(),
            auto_send: default_false(),
            intercept_enter: default_false(),
            enable_whitelist: default_true(),
            whitelist: default_whitelist(),
            max_image_size: default_max_image_size(),
            max_chars: 0,
        }
    }
}

/// The process mode the two toggles encode.
pub open spec fn process_mode_of(c: Config) -> ProcessMode {
    if c.auto_send {
        ProcessMode::Send
    } else if c.auto_paste {
        ProcessMode::Paste
    } else {
        ProcessMode::Copy
    }
}

impl Config {
    /// The process mode the two toggles encode.
    pub fn process_mode(&self) -> (r: ProcessMode)
        ensures
            r == process_mode_of(*self),
    {
        if self.auto_send {
            ProcessMode::Send
        } else if self.auto_paste {
            ProcessMode::Paste
        } else {
            ProcessMode::Copy
        }
    }

    /// Switch the active character.
    pub fn set_current_character(&mut self, character: String)
        ensures
            *final(self) == (Config { current_character: character, ..*old(self) }),
    {
        self.current_character = character;
    }

    /// Enable or disable pasting.
    pub fn set_auto_paste(&mut self, enabled: bool)
        ensures
            *final(self) == (Config { auto_paste: enabled, ..*old(self) }),
    {
        self.auto_paste = enabled;
    }

    /// Enable or disable sending.
    pub fn set_auto_send(&mut self, enabled: bool)
        ensures
            *final(self) == (Config { auto_send: enabled, ..*old(self) }),
    {
        self.auto_send = enabled;
    }

    /// Enable or disable enter interception.
    pub fn set_intercept_enter(&mut self, enabled: bool)
        ensures
            *final(self) == (Config { intercept_enter: enabled, ..*old(self) }),
    {
        self.intercept_enter = enabled;
    }

    /// Enable or disable the whitelist.
    pub fn set_enable_whitelist(&mut self, enabled: bool)
        ensures
            *final(self) == (Config { enable_whitelist: enabled, ..*old(self) }),
    {
        self.enable_whitelist = enabled;
    }
}

/// The side action a control message asks of the caller.
#[derive(Clone, Copy, Debug, PartialEq, Eq, Structural)]
pub enum MessageAction {
    /// Nothing beyond the settings change.
    Nothing,
    /// Open the help page.
    OpenHelp,
    /// Leave the event loop.
    Quit,
}

/// Apply one control message to the settings. `character_exists` says whether
/// the identifier of a switch request names a known character; an unknown one
/// changes nothing.
pub fn apply_message(config: &mut Config, msg: ControlMessage, character_exists: bool) -> (r:
    MessageAction)
    ensures
        match msg {
            ControlMessage::SwitchCharacter(id) => r == MessageAction::Nothing && (character_exists
                ==> *final(config) == (Config { current_character: id, ..*old(config) })) && (
            !character_exists ==> *final(config) == *old(config)),
            ControlMessage::ToggleAutoPaste => r == MessageAction::Nothing && *final(config) == (Config {
                auto_paste: process_mode_of(*old(config)) == ProcessMode::Copy,
                auto_send: false,
                ..*old(config)
            }),
            ControlMessage::ToggleAutoSend => r == MessageAction::Nothing && *final(config) == (Config {
                auto_paste: true,
                auto_send: process_mode_of(*old(config)) != ProcessMode::Send,
                ..*old(config)
            }),
            ControlMessage::ToggleIntercept => r == MessageAction::Nothing && *final(config) == (Config {
                intercept_enter: !old(config).intercept_enter,
                ..*old(config)
            }),
            ControlMessage::ToggleWhitelist => r == MessageAction::Nothing && *final(config) == (Config {
                enable_whitelist: !old(config).enable_whitelist,
                ..*old(config)
            }),
            ControlMessage::Help => r == MessageAction::OpenHelp && *final(config) == *old(config),
            ControlMessage::Quit => r == MessageAction::Quit && *final(config) == *old(config),
        },
{
    match msg {
        ControlMessage::SwitchCharacter(id) => {
            if character_exists {
                config.set_current_character(id);
            }
            MessageAction::Nothing
        },
        ControlMessage::ToggleAutoPaste => {
            let was_copy = config.process_mode() == ProcessMode::Copy;
            config.set_auto_paste(was_copy);
            config.set_auto_send(false);
            MessageAction::Nothing
        },
        ControlMessage::ToggleAutoSend => {
            let was_send = config.process_mode() == ProcessMode::Send;
            config.set_auto_paste(true);
            config.set_auto_send(!was_send);
            MessageAction::Nothing
        },
        ControlMessage::ToggleIntercept => {
            let enabled = !config.intercept_enter;
            config.set_intercept_enter(enabled);
            MessageAction::Nothing
        },
        ControlMessage::ToggleWhitelist => {
            let enabled = !config.enable_whitelist;
            config.set_enable_whitelist(enabled);
            MessageAction::Nothing
        },
        ControlMessage::Help => MessageAction::OpenHelp,
        ControlMessage::Quit => MessageAction::Quit,
    }
}

/// Whether `list` holds a string with the characters of `app`.
pub open spec fn whitelist_contains(list: Seq<String>, app: Seq<char>) -> bool {
    exists|i: int| 0 <= i < list.len() && list[i]@ == app
}

/// Whether a render may go ahead: always when the whitelist is off, else only
/// when the active application is known and whitelisted.
pub fn check_whitelist(config: &Config, active_app: Option<&String>) -> (r: bool)
    ensures
        r == (!config.enable_whitelist || (active_app is Some && whitelist_contains(
            config.whitelist@,
            active_app->0@,
        ))),
{
    if !config.enable_whitelist {
        return true;
    }
    match active_app {
        Option::None => false,
        Option::Some(app) => {
            let n = config.whitelist.len();
            let mut i: usize = 0;
            while i < n
                invariant
                    n == config.whitelist@.len(),
                    i <= n,
                    active_app is Some && active_app->0 == app,
                    config.enable_whitelist,
                    forall|j: int| 0 <= j < i ==> (#[trigger] config.whitelist@[j])@ != app@,
                decreases n - i,
            {
                if config.whitelist[i].eq(app) {
                    proof {
                        assert(config.whitelist@[i as int]@ == app@);
                        assert(whitelist_contains(config.whitelist@, app@));
                    }
                    return true;
                }
                i = i + 1;
            }
            proof {
                assert(!whitelist_contains(config.whitelist@, app@));
            }
            false
        },
    }
}

/// What to do with a captured caption.
#[derive(Clone, Copy, Debug, PartialEq, Eq, Structural)]
pub enum CaptionAction {
    /// Do nothing: the caption is empty.
    Skip,
    /// Send the bare text instead of rendering: it is over the length cap.
    SendOnly,
    /// Render the caption into an image.
    Generate,
}

/// Decide what to do with a caption of `char_count` characters.
pub fn caption_decision(
    char_count: usize,
    mode: ProcessMode,
    enable_max_chars: bool,
    max_chars: usize,
) -> (r: CaptionAction)
    ensures
        char_count == 0 ==> r == CaptionAction::Skip,
        char_count > 0 && mode == ProcessMode::Send && enable_max_chars && max_chars > 0
            && char_count > max_chars ==> r == CaptionAction::SendOnly,
        char_count > 0 && !(mode == ProcessMode::Send && enable_max_chars && max_chars > 0
            && char_count > max_chars) ==> r == CaptionAction::Generate,
{
    if char_count == 0 {
        CaptionAction::Skip
    } else if mode == ProcessMode::Send && enable_max_chars && max_chars > 0 && char_count
        > max_chars {
        CaptionAction::SendOnly
    } else {
        CaptionAction::Generate
    }
}

/// What follows the clipboard copy of a finished image: whether it is pasted,
/// and whether it is then sent.
pub fn post_copy_actions(mode: ProcessMode) -> (r: (bool, bool))
    ensures
        r.0 == (mode != ProcessMode::Copy),
        r.1 == (mode == ProcessMode::Send),
{
    (mode != ProcessMode::Copy, mode == ProcessMode::Send)
}

} // verus!
