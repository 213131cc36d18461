use switchout::hypr::Monitor;
use switchout::plan::{lua_num, lua_str, script, Mode, Rule, Setup, Side};
use switchout::state::Layouts;

fn mon(id: i64, name: &str) -> Monitor {
    Monitor {
        id,
        name: name.into(),
        description: String::new(),
        width: 1920,
        height: 1080,
        refresh_mhz: (60.0f64 * 1000.0).round() as u64,
        x: 0,
        y: 0,
        scale_micro: (1.0f64 * 1e6).round() as i64,
        transform: 0,
        disabled: false,
        mirror_of: "none".into(),
        available_modes: vec!["1920x1080@60.00Hz".into()],
        focused: false,
    }
}

fn setup(ms: &[Monitor]) -> Setup {
    Setup::resolve(ms, None, &[]).unwrap()
}

#[test]
fn picks_laptop_as_primary_and_skips_headless() {
    let ms = [mon(0, "DP-1"), mon(1, "eDP-1"), mon(2, "HEADLESS-2")];
    let s = setup(&ms);
    assert_eq!(s.primary.name, "eDP-1");
    assert_eq!(s.targets.iter().map(|m| &m.name[..]).collect::<Vec<_>>(), ["DP-1"]);
}

#[test]
fn errors_without_external_screen() {
    assert!(Setup::resolve(&[mon(0, "eDP-1")], None, &[]).is_err());
}

#[test]
fn mirror_is_a_complete_rule() {
    let s = setup(&[mon(0, "eDP-1"), mon(1, "HDMI-A-1")]);
    let rules = s.plan(Mode::Mirror, None, &Layouts::default());
    assert_eq!(
        script(&rules),
        r#"hl.monitor({ output = "HDMI-A-1", disabled = false, mode = "1920x1080@60.00", position = "0x0", scale = 1, transform = 0, mirror = "eDP-1" })"#
    );
}

#[test]
fn external_only_enables_before_disabling() {
    let mut ext = mon(1, "HDMI-A-1");
    ext.disabled = true;
    let s = setup(&[mon(0, "eDP-1"), ext]);
    let rules = s.plan(Mode::ExternalOnly, None, &Layouts::default());
    assert!(matches!(&rules[0], Rule::Enable { output, .. } if output == "HDMI-A-1"));
    assert_eq!(rules[1], Rule::Disable { output: "eDP-1".into() });
}

#[test]
fn extend_reenables_primary_and_honours_side() {
    let mut laptop = mon(0, "eDP-1");
    laptop.disabled = true;
    let s = setup(&[laptop, mon(1, "HDMI-A-1")]);
    let rules = s.plan(Mode::Extend, Some(Side::Left), &Layouts::default());
    assert_eq!(rules.len(), 2);
    let Rule::Enable { geometry, .. } = &rules[1] else { panic!() };
    assert_eq!(geometry.position, "auto-left");
}

#[test]
fn detects_current_mode() {
    let mut ext = mon(1, "HDMI-A-1");
    assert_eq!(setup(&[mon(0, "eDP-1"), ext.clone()]).current_mode(), Some(Mode::Extend));
    ext.mirror_of = "0".into();
    assert_eq!(setup(&[mon(0, "eDP-1"), ext.clone()]).current_mode(), Some(Mode::Mirror));
    ext.disabled = true;
    assert_eq!(setup(&[mon(0, "eDP-1"), ext]).current_mode(), Some(Mode::InternalOnly));
}

#[test]
fn escapes_lua_strings() {
    assert_eq!(lua_str("a\"b\\c\n"), r#""a\"b\\c\n""#);
    assert_eq!(lua_num((1.3333334f64 * 1e6).round() as i64), "1.333333");
}
