use switchout::hypr::Monitor;
use switchout::plan::Mode;
use switchout::status::{primary_and_externals, screens};
use switchout::tui::{apply_message, Action, Key, Menu};

fn mon(id: i64, name: &str) -> Monitor {
    Monitor {
        id,
        name: name.into(),
        description: String::new(),
        width: 1920,
        height: 1080,
        refresh_mhz: 60_000,
        x: 0,
        y: 0,
        scale_micro: 1_000_000,
        transform: 0,
        disabled: false,
        mirror_of: "none".into(),
        available_modes: vec!["1920x1080@60.00Hz".into()],
        focused: false,
    }
}

#[test]
fn status_lists_physical_screens() {
    let mut ext = mon(7, "HDMI-A-1");
    ext.mirror_of = "3".into();
    let mut laptop = mon(3, "eDP-1");
    laptop.description = "BOE panel".into();
    let ms = [laptop, ext, mon(9, "HEADLESS-2")];
    let list = screens(&ms);
    assert_eq!(list.len(), 2);
    assert!(list[0].primary && list[0].enabled);
    assert_eq!(list[1].mirror_of.as_deref(), Some("eDP-1"));
    assert_eq!(list[0].line(), "eDP-1      1920x1080@60.00  on             BOE panel (primary)");
    assert_eq!(list[1].line(), "HDMI-A-1   1920x1080@60.00  mirrors eDP-1  ");
    let (primary, externals) = primary_and_externals(&ms);
    assert_eq!(primary.as_deref(), Some("eDP-1"));
    assert_eq!(externals, ["HDMI-A-1"]);
}

#[test]
fn status_without_external_screen_still_names_the_laptop() {
    let mut off = mon(1, "eDP-1");
    off.disabled = true;
    let (primary, externals) = primary_and_externals(&[off]);
    assert_eq!(primary.as_deref(), Some("eDP-1"));
    assert!(externals.is_empty());
    let (primary, _) = primary_and_externals(&[]);
    assert_eq!(primary, None);
}

#[test]
fn menu_keys() {
    let mut m = Menu::new();
    assert_eq!(m.on_key(Key::Up, 2), Action::Nothing);
    assert_eq!(m.mode_index(), 0);
    for _ in 0..5 {
        m.on_key(Key::Down, 2);
    }
    assert_eq!(m.selected_mode(), Mode::InternalOnly);
    assert_eq!(m.on_key(Key::Enter, 2), Action::Apply(Mode::InternalOnly));
    assert_eq!(m.on_key(Key::Digit(2), 2), Action::Apply(Mode::Extend));
    assert_eq!(m.mode_index(), 1);
    assert_eq!(m.on_key(Key::Digit(7), 2), Action::Nothing);
    assert_eq!(m.on_key(Key::NextTarget, 2), Action::Nothing);
    assert_eq!(m.target(), 1);
    m.on_key(Key::NextTarget, 2);
    m.on_key(Key::NextTarget, 2);
    assert_eq!(m.target(), 0);
    m.on_key(Key::Left, 2);
    assert_eq!(m.side_label(), "below");
    m.on_key(Key::Right, 2);
    assert_eq!(m.side_label(), "keep position");
    assert_eq!(m.side_for(Mode::Mirror), None);
    assert_eq!(m.on_key(Key::Reload, 2), Action::Reload);
    assert_eq!(m.on_key(Key::Quit, 2), Action::Quit);
}

#[test]
fn menu_targets() {
    let externals = vec!["DP-1".to_string(), "DP-2".to_string()];
    let mut m = Menu::new();
    assert_eq!(m.target_label(&externals), "all external screens");
    assert!(m.outputs(&externals).is_empty());
    m.on_key(Key::NextTarget, 2);
    m.on_key(Key::NextTarget, 2);
    assert_eq!(m.target_label(&externals), "DP-2");
    assert_eq!(m.outputs(&externals), ["DP-2"]);
    m.clamp(0);
    assert_eq!(m.target_label(&Vec::new()), "no external screen");
    m.select(Some(Mode::ExternalOnly));
    assert_eq!(m.mode_index(), 2);
}

#[test]
fn apply_messages() {
    assert_eq!(apply_message(Mode::Mirror, &vec![]), ("Mirror applied".to_string(), false));
    assert_eq!(
        apply_message(Mode::Extend, &vec!["a".to_string(), "b".to_string()]),
        ("a · b".to_string(), true)
    );
}
