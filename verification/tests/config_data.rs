use imagebox::color::{Color, ColorInput};
use imagebox::config::{
    apply_message, caption_decision, check_whitelist, default_max_image_size, default_whitelist,
    post_copy_actions, CaptionAction, Config, ControlMessage, MessageAction, ProcessMode,
};
use imagebox::data_manager::{
    collect_object_patterns, get_data_dir, load_data, resolve_pattern, CharacterConfigRaw,
    DataConfig, DataError, DataManager, Template,
};
use imagebox::data_model::{HorizontalAlign, ObjectConfig, TextAreaConfig, VerticalAlign};
use imagebox::keyboard::{
    handle_key_event, set_modifier_key, EnterAction, KeyEventKind, CTRL_MASK, SHIFT_MASK,
};

fn textarea() -> TextAreaConfig {
    TextAreaConfig {
        position: [0, 0],
        size: [100, 100],
        font_color: ColorInput::Literal("white".to_string()),
        highlight: None,
        max_font_size: None,
        shadow_offset: (2, 2),
        line_spacing: 0,
        align: HorizontalAlign::Left,
        valign: VerticalAlign::Top,
    }
}

fn raw(name: &str) -> CharacterConfigRaw {
    CharacterConfigRaw {
        name: name.to_string(),
        backgrounds: None,
        font: None,
        primary_color: None,
        objects: None,
        textarea: None,
    }
}

fn template() -> Template {
    Template {
        backgrounds: Some(vec!["b/*.png".to_string()]),
        font: Some("font.ttf".to_string()),
        primary_color: Some(ColorInput::RgbArr([1, 2, 3])),
        objects: None,
        textarea: Some(textarea()),
    }
}

#[test]
fn defaults_match_the_documented_values() {
    let c = Config::default();
    assert_eq!(c.current_character, "");
    assert!(c.auto_paste);
    assert!(!c.auto_send);
    assert!(!c.intercept_enter);
    assert!(c.enable_whitelist);
    assert_eq!(c.whitelist, default_whitelist());
    assert_eq!(c.max_image_size, default_max_image_size());
    assert_eq!(c.process_mode(), ProcessMode::Paste);
}

#[test]
fn toggle_auto_paste_cycles_copy_and_paste() {
    let mut c = Config::default();
    assert_eq!(apply_message(&mut c, ControlMessage::ToggleAutoPaste, true), MessageAction::Nothing);
    assert_eq!(c.process_mode(), ProcessMode::Copy);
    apply_message(&mut c, ControlMessage::ToggleAutoPaste, true);
    assert_eq!(c.process_mode(), ProcessMode::Paste);
}

#[test]
fn toggle_auto_send_cycles_send_and_paste() {
    let mut c = Config::default();
    apply_message(&mut c, ControlMessage::ToggleAutoSend, true);
    assert_eq!(c.process_mode(), ProcessMode::Send);
    apply_message(&mut c, ControlMessage::ToggleAutoSend, true);
    assert_eq!(c.process_mode(), ProcessMode::Paste);
}

#[test]
fn switch_character_needs_a_known_identifier() {
    let mut c = Config::default();
    apply_message(&mut c, ControlMessage::SwitchCharacter("alice".to_string()), false);
    assert_eq!(c.current_character, "");
    apply_message(&mut c, ControlMessage::SwitchCharacter("alice".to_string()), true);
    assert_eq!(c.current_character, "alice");
}

#[test]
fn help_and_quit_change_nothing() {
    let mut c = Config::default();
    assert_eq!(apply_message(&mut c, ControlMessage::Help, true), MessageAction::OpenHelp);
    assert_eq!(apply_message(&mut c, ControlMessage::Quit, true), MessageAction::Quit);
    assert_eq!(c.current_character, "");
    assert_eq!(c.process_mode(), ProcessMode::Paste);
}

#[test]
fn whitelist_gates_only_when_enabled() {
    let mut c = Config::default();
    let app = "WeChat".to_string();
    let other = "Sometool".to_string();
    assert!(check_whitelist(&c, Some(&app)));
    assert!(!check_whitelist(&c, Some(&other)));
    assert!(!check_whitelist(&c, None));
    c.set_enable_whitelist(false);
    assert!(check_whitelist(&c, None));
    assert!(check_whitelist(&c, Some(&other)));
}

#[test]
fn caption_decisions() {
    assert_eq!(caption_decision(0, ProcessMode::Send, true, 10), CaptionAction::Skip);
    assert_eq!(caption_decision(11, ProcessMode::Send, true, 10), CaptionAction::SendOnly);
    assert_eq!(caption_decision(11, ProcessMode::Paste, true, 10), CaptionAction::Generate);
    assert_eq!(caption_decision(11, ProcessMode::Send, false, 10), CaptionAction::Generate);
    assert_eq!(caption_decision(11, ProcessMode::Send, true, 0), CaptionAction::Generate);
    assert_eq!(caption_decision(5, ProcessMode::Send, true, 10), CaptionAction::Generate);
}

#[test]
fn post_copy_actions_follow_the_mode() {
    assert_eq!(post_copy_actions(ProcessMode::Copy), (false, false));
    assert_eq!(post_copy_actions(ProcessMode::Paste), (true, false));
    assert_eq!(post_copy_actions(ProcessMode::Send), (true, true));
}

#[test]
fn modifier_bits_set_and_clear() {
    let s = set_modifier_key(0, SHIFT_MASK, true);
    assert_eq!(s, 1);
    let s = set_modifier_key(s, CTRL_MASK, true);
    assert_eq!(s, 3);
    let s = set_modifier_key(s, SHIFT_MASK, false);
    assert_eq!(s, 2);
}

#[test]
fn enter_is_swallowed_only_when_everything_allows_it() {
    let (s, a) = handle_key_event(0, KeyEventKind::EnterDown, true, true, false);
    assert_eq!(s, 0);
    assert_eq!(a, EnterAction::Trigger);
    // A held modifier, disabled interception, a failed whitelist check or a
    // running render all pass the key through.
    assert_eq!(handle_key_event(1, KeyEventKind::EnterDown, true, true, false).1, EnterAction::PassThrough);
    assert_eq!(handle_key_event(0, KeyEventKind::EnterDown, false, true, false).1, EnterAction::PassThrough);
    assert_eq!(handle_key_event(0, KeyEventKind::EnterDown, true, false, false).1, EnterAction::PassThrough);
    assert_eq!(handle_key_event(0, KeyEventKind::EnterDown, true, true, true).1, EnterAction::PassThrough);
}

#[test]
fn modifier_tracking_across_events() {
    let (s, _) = handle_key_event(0, KeyEventKind::ShiftDown, false, false, false);
    let (s, _) = handle_key_event(s, KeyEventKind::AltDown, false, false, false);
    assert_eq!(s, 5);
    let (s, _) = handle_key_event(s, KeyEventKind::ShiftUp, false, false, false);
    assert_eq!(s, 4);
}

#[test]
fn data_dir_and_patterns() {
    assert_eq!(get_data_dir("/opt/app"), "/opt/app/data");
    assert_eq!(resolve_pattern("%c/bg_*.png", "alice"), "alice/bg_*.png");
    assert_eq!(resolve_pattern("a%cb%c", "x"), "axbx");
    assert_eq!(resolve_pattern("plain", "x"), "plain");
}

#[test]
fn load_data_merges_template_and_profile() {
    let mut own = raw("Alice");
    own.backgrounds = Some(vec!["a/*.png".to_string()]);
    own.primary_color = Some(ColorInput::RgbaArr([4, 5, 6, 7]));
    let config = DataConfig {
        template: template(),
        characters: vec![("alice".to_string(), own)],
    };
    let out = load_data(config).ok().unwrap();
    assert_eq!(out.len(), 1);
    let c = &out[0];
    assert_eq!(c.id, "alice");
    assert_eq!(c.name, "Alice");
    assert_eq!(c.font, "font.ttf");
    assert_eq!(c.primary_color, Color { r: 4, g: 5, b: 6, a: 7 });
    // Backgrounds are merged and sorted.
    assert_eq!(c.backgrounds, vec!["a/*.png".to_string(), "b/*.png".to_string()]);
}

#[test]
fn load_data_sorts_and_deduplicates_backgrounds() {
    let mut own = raw("A");
    own.backgrounds = Some(vec!["z".to_string(), "b/*.png".to_string(), "a".to_string()]);
    let config = DataConfig {
        template: template(),
        characters: vec![("a".to_string(), own)],
    };
    let out = load_data(config).ok().unwrap();
    assert_eq!(
        out[0].backgrounds,
        vec!["a".to_string(), "b/*.png".to_string(), "z".to_string()]
    );
}

#[test]
fn load_data_reports_the_missing_piece() {
    let mut t = template();
    t.backgrounds = None;
    let config = DataConfig {
        template: t,
        characters: vec![("a".to_string(), raw("A"))],
    };
    match load_data(config) {
        Err(DataError::MissingBackgrounds(id)) => assert_eq!(id, "a"),
        _ => panic!("expected missing backgrounds"),
    }

    let mut t = template();
    t.font = None;
    let config = DataConfig {
        template: t,
        characters: vec![("b".to_string(), raw("B"))],
    };
    match load_data(config) {
        Err(DataError::MissingFont(id)) => assert_eq!(id, "b"),
        _ => panic!("expected missing font"),
    }

    let mut t = template();
    t.textarea = None;
    let config = DataConfig {
        template: t,
        characters: vec![("c".to_string(), raw("C"))],
    };
    match load_data(config) {
        Err(DataError::MissingTextarea(id)) => assert_eq!(id, "c"),
        _ => panic!("expected missing textarea"),
    }
}

#[test]
fn manager_finds_characters_by_identifier() {
    let config = DataConfig {
        template: template(),
        characters: vec![
            ("alice".to_string(), raw("Alice")),
            ("bob".to_string(), raw("Bob")),
        ],
    };
    let dm = DataManager::new("/data".to_string(), config).ok().unwrap();
    assert_eq!(dm.get_characters().len(), 2);
    assert_eq!(dm.get_character("bob").unwrap().name, "Bob");
    assert!(dm.get_character("carol").is_none());
    let alice = dm.get_character("alice").unwrap();
    assert_eq!(dm.get_font_path(alice), "/data/fonts/font.ttf");
    assert_eq!(dm.background_dir(), "/data/backgrounds");
    assert_eq!(dm.images_dir(), "/data/images");
}

#[test]
fn manager_rejects_an_empty_profile_set() {
    let config = DataConfig { template: template(), characters: Vec::new() };
    assert!(matches!(
        DataManager::new("/data".to_string(), config),
        Err(DataError::NoCharacters)
    ));
}

#[test]
fn object_patterns_are_collected_sorted_and_distinct() {
    let objects = vec![
        ObjectConfig::Image { position: [0, 0], path: vec!["z".to_string(), "m".to_string()] },
        ObjectConfig::Text {
            text: "t".to_string(),
            position: [0, 0],
            font_color: ColorInput::RgbArr([0, 0, 0]),
            font_size: 10,
        },
        ObjectConfig::Image { position: [1, 1], path: vec!["a".to_string(), "m".to_string()] },
    ];
    let patterns = collect_object_patterns(&objects);
    assert_eq!(patterns, vec!["a".to_string(), "m".to_string(), "z".to_string()]);
}
