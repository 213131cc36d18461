use switchout::applied::switch_warnings;
use switchout::hypr::Monitor;
use switchout::plan::{lua_num, lua_str, script, Mode, ResolveError, Rule, Setup, Side};
use switchout::state::{Geometry, Layouts};

fn mon(id: i64, name: &str) -> Monitor {
    Monitor {
        id,
        name: name.into(),
        description: String::new(),
        width: 1920,
        height: 1080,
        refresh_mhz: 60_000,
        x: 0,
        y: 0,
        scale_micro: 1_000_000,
        transform: 0,
        disabled: false,
        mirror_of: "none".into(),
        available_modes: vec!["1920x1080@60.00Hz".into()],
        focused: false,
    }
}

#[test]
fn lua_strings_escape_control_characters() {
    assert_eq!(lua_str("a\u{1}b\u{7f}"), "\"a\\001b\\127\"");
    assert_eq!(lua_str("tab\there\r"), "\"tab\\009here\\013\"");
    assert_eq!(lua_str(""), "\"\"");
    assert_eq!(lua_str("é"), "\"é\"");
}

#[test]
fn lua_numbers() {
    assert_eq!(lua_num(2_000_000), "2");
    assert_eq!(lua_num(1_500_000), "1.5");
    assert_eq!(lua_num(1_250_000), "1.25");
    assert_eq!(lua_num(-1_500_000), "-1.5");
    assert_eq!(lua_num(1), "0.000001");
    assert_eq!(lua_num(0), "0");
}

#[test]
fn disable_rule_text() {
    let r = Rule::Disable { output: "eDP-1".into() };
    assert_eq!(r.to_lua(), "hl.monitor({ output = \"eDP-1\", disabled = true })");
}

#[test]
fn script_puts_one_rule_per_line() {
    let rules = [Rule::Disable { output: "A".into() }, Rule::Disable { output: "B".into() }];
    assert_eq!(
        script(&rules),
        "hl.monitor({ output = \"A\", disabled = true })\nhl.monitor({ output = \"B\", disabled = true })"
    );
    assert_eq!(script(&[]), "");
}

#[test]
fn resolve_errors() {
    let ms = [mon(0, "eDP-1"), mon(1, "DP-1")];
    let err = Setup::resolve(&ms, Some("HDMI-A-9"), &[]).unwrap_err();
    assert!(matches!(&err, ResolveError::NoScreenNamed(n) if n == "HDMI-A-9"));
    assert_eq!(err.message(), "no screen named HDMI-A-9");
    let err = Setup::resolve(&ms, None, &["eDP-1".to_string()]).unwrap_err();
    assert!(matches!(&err, ResolveError::IsPrimary(n) if n == "eDP-1"));
    assert_eq!(err.message(), "eDP-1 is the primary screen");
    let err = Setup::resolve(&ms, None, &["DP-9".to_string()]).unwrap_err();
    assert_eq!(err.message(), "no screen named DP-9");
    let err = Setup::resolve(&[], None, &[]).unwrap_err();
    assert!(matches!(err, ResolveError::NoScreen));
    assert_eq!(err.message(), "no screen found");
    let err = Setup::resolve(&[mon(0, "eDP-1"), mon(1, "HEADLESS-1")], None, &[]).unwrap_err();
    assert_eq!(err.message(), "no external screen connected");
}

#[test]
fn resolve_falls_back_to_focused_then_first() {
    let mut b = mon(1, "DP-2");
    b.focused = true;
    let s = Setup::resolve(&[mon(0, "DP-1"), b.clone()], None, &[]).unwrap();
    assert_eq!(s.primary.name, "DP-2");
    let s = Setup::resolve(&[mon(0, "DP-1"), mon(1, "DP-2")], None, &[]).unwrap();
    assert_eq!(s.primary.name, "DP-1");
    // A named virtual output is taken.
    let s = Setup::resolve(&[mon(0, "HEADLESS-4"), mon(1, "HEADLESS-5")], Some("HEADLESS-4"), &["HEADLESS-5".to_string()])
        .unwrap();
    assert_eq!(s.targets[0].name, "HEADLESS-5");
}

#[test]
fn internal_only_turns_the_primary_on_before_the_others_off() {
    let mut laptop = mon(0, "eDP-1");
    laptop.disabled = true;
    let s = Setup::resolve(&[laptop, mon(1, "DP-1"), mon(2, "DP-2")], None, &[]).unwrap();
    let rules = s.plan(Mode::InternalOnly, None, &Layouts::new());
    assert_eq!(rules.len(), 3);
    assert!(matches!(&rules[0], Rule::Enable { output, geometry, mirror: None }
        if output == "eDP-1" && geometry.mode == "preferred" && geometry.position == "auto-right"));
    assert_eq!(rules[1], Rule::Disable { output: "DP-1".into() });
    assert_eq!(rules[2], Rule::Disable { output: "DP-2".into() });
}

#[test]
fn extend_puts_a_screen_back_where_it_was() {
    let mut ext = mon(1, "HDMI-A-1");
    ext.description = "LG".into();
    ext.x = 1920;
    let mut layouts = Layouts::new();
    layouts.record(&[mon(0, "eDP-1"), ext.clone()]);
    // Later the screen is mirrored on another port.
    let mut later = ext.clone();
    later.name = "DP-3".into();
    later.mirror_of = "0".into();
    later.x = 0;
    let s = Setup::resolve(&[mon(0, "eDP-1"), later], None, &[]).unwrap();
    let rules = s.plan(Mode::Extend, None, &layouts);
    assert_eq!(rules.len(), 1);
    let Rule::Enable { output, geometry, mirror } = &rules[0] else { panic!() };
    assert_eq!(output, "DP-3");
    assert_eq!(geometry, &Geometry::of(&ext));
    assert_eq!(geometry.position, "1920x0");
    assert!(mirror.is_none());
}

#[test]
fn rules_never_turn_a_screen_off_before_turning_one_on() {
    let mut laptop = mon(0, "eDP-1");
    laptop.disabled = true;
    let mut off = mon(1, "DP-1");
    off.disabled = true;
    let s = Setup::resolve(&[laptop, off, mon(2, "DP-2")], None, &[]).unwrap();
    for mode in [Mode::Mirror, Mode::Extend, Mode::ExternalOnly, Mode::InternalOnly] {
        let rules = s.plan(mode, Some(Side::Up), &Layouts::new());
        let first_off = rules.iter().position(|r| matches!(r, Rule::Disable { .. })).unwrap_or(rules.len());
        assert!(rules[first_off..].iter().all(|r| matches!(r, Rule::Disable { .. })));
    }
}

#[test]
fn warnings_for_screens_that_did_not_switch() {
    let s = Setup::resolve(&[mon(0, "eDP-1"), mon(1, "HDMI-A-1")], None, &[]).unwrap();
    let rules = s.plan(Mode::Mirror, None, &Layouts::new());
    let mut ok = mon(1, "HDMI-A-1");
    ok.mirror_of = "0".into();
    assert!(switch_warnings(&rules, &[mon(0, "eDP-1"), ok]).is_empty());
    let w = switch_warnings(&rules, &[mon(0, "eDP-1"), mon(1, "HDMI-A-1")]);
    assert_eq!(w, ["HDMI-A-1 did not switch as expected (another monitor rule or tool may override it)"]);
    let off = [Rule::Disable { output: "eDP-1".into() }];
    assert_eq!(switch_warnings(&off, &[mon(0, "eDP-1")]).len(), 1);
}

#[test]
fn lua_numbers_read_back() {
    for x in [0i64, 1, 999_999, 1_000_000, 1_333_333, -2_750_000, 12_000_010] {
        let s = lua_num(x);
        let (neg, body) = match s.strip_prefix('-') {
            Some(b) => (true, b),
            None => (false, s.as_str()),
        };
        let (whole, frac) = body.split_once('.').unwrap_or((body, ""));
        assert!(frac.len() <= 6 && !frac.ends_with('0'));
        let mut v: i64 = whole.parse::<i64>().unwrap() * 1_000_000;
        if !frac.is_empty() {
            v += frac.parse::<i64>().unwrap() * 10i64.pow(6 - frac.len() as u32);
        }
        assert_eq!(if neg { -v } else { v }, x);
    }
}

#[test]
fn script_splits_back_into_the_rules() {
    let s = Setup::resolve(&[mon(0, "eDP-1"), mon(1, "HDMI\nA")], None, &[]).unwrap();
    let rules = s.plan(Mode::ExternalOnly, None, &Layouts::default());
    let text = script(&rules);
    let lines: Vec<String> = text.split('\n').map(String::from).collect();
    let each: Vec<String> = rules.iter().map(Rule::to_lua).collect();
    assert_eq!(lines, each);
    assert!(each.iter().all(|l| !l.contains('\n')));
}

/// Hyprland carrying out the rules, as the library's `rule_effect` describes it.
fn carry_out(monitors: &mut [Monitor], rules: &[Rule]) {
    let ids: Vec<(String, i64)> = monitors.iter().map(|m| (m.name.clone(), m.id)).collect();
    for r in rules {
        for m in monitors.iter_mut() {
            match r {
                Rule::Disable { output } if *output == m.name => m.disabled = true,
                Rule::Enable { output, mirror, .. } if *output == m.name => {
                    m.disabled = false;
                    m.mirror_of = match mirror {
                        Some(src) => ids
                            .iter()
                            .find(|(n, _)| n == src)
                            .map(|(_, id)| id.to_string())
                            .unwrap_or_else(|| "none".into()),
                        None => "none".into(),
                    };
                }
                _ => {}
            }
        }
    }
}

#[test]
fn the_planned_mode_is_detected_once_applied() {
    for mode in [Mode::Mirror, Mode::Extend, Mode::ExternalOnly, Mode::InternalOnly] {
        let mut ext = mon(1, "HDMI-A-1");
        ext.disabled = true;
        let mut ms = vec![mon(0, "eDP-1"), ext, mon(2, "DP-2")];
        let s = Setup::resolve(&ms, None, &[]).unwrap();
        let rules = s.plan(mode, Some(Side::Left), &Layouts::default());
        carry_out(&mut ms, &rules);
        let after = Setup::resolve(&ms, None, &[]).unwrap();
        assert_eq!(after.current_mode(), Some(mode));
    }
}
