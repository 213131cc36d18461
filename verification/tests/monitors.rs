use switchout::hypr::{eval_succeeded, Monitor};
use switchout::state::{Geometry, Layouts};

fn screen(id: i64, name: &str, w: u32, h: u32, refresh_mhz: u64, modes: &[&str]) -> Monitor {
    Monitor {
        id,
        name: name.into(),
        description: String::new(),
        width: w,
        height: h,
        refresh_mhz,
        x: 0,
        y: 0,
        scale_micro: 1_000_000,
        transform: 0,
        disabled: false,
        mirror_of: "none".into(),
        available_modes: modes.iter().map(|s| s.to_string()).collect(),
        focused: false,
    }
}

#[test]
fn mode_string_picks_the_closest_listed_rate() {
    let m = screen(
        0,
        "DP-1",
        2560,
        1440,
        179_990,
        &["2560x1440@59.95Hz", "2560x1440@180.00Hz", "1920x1080@60.00Hz"],
    );
    assert_eq!(m.mode_string(), "2560x1440@180.00");
}

#[test]
fn mode_string_keeps_the_first_of_equally_close_rates() {
    let m = screen(0, "DP-1", 1920, 1080, 60_000, &["1920x1080@59.00Hz", "1920x1080@61.00Hz"]);
    assert_eq!(m.mode_string(), "1920x1080@59.00");
}

#[test]
fn mode_string_falls_back_to_the_raw_rate() {
    let m = screen(0, "DP-1", 1920, 1080, 59_951, &["2560x1440@60.00Hz", "1920x1080@junkHz"]);
    assert_eq!(m.mode_string(), "1920x1080@59.95");
    let m = screen(0, "DP-1", 800, 600, 59_996, &[]);
    assert_eq!(m.mode_string(), "800x600@60.00");
    // Exactly halfway goes to the even hundredth, as `{:.2}` does.
    let m = screen(0, "DP-1", 8, 6, 60_125, &[]);
    assert_eq!(m.mode_string(), "8x6@60.12");
    let m = screen(0, "DP-1", 8, 6, 60_375, &[]);
    assert_eq!(m.mode_string(), "8x6@60.38");
    let m = screen(0, "DP-1", 8, 6, 60_000, &["8x6@+59.90Hz", "8x6@60.30Hz"]);
    assert_eq!(m.mode_string(), "8x6@+59.90");
}

#[test]
fn kinds_of_screens() {
    let mut m = screen(3, "eDP-1", 1920, 1080, 60_000, &[]);
    assert!(m.is_internal() && !m.is_virtual() && m.is_extended() && !m.is_mirroring());
    m.name = "HEADLESS-4".into();
    assert!(!m.is_internal() && m.is_virtual());
    m.mirror_of = "0".into();
    assert!(m.is_mirroring() && !m.is_extended());
    m.mirror_of = String::new();
    assert!(!m.is_mirroring());
    m.disabled = true;
    assert!(!m.is_extended());
}

#[test]
fn key_prefers_the_description() {
    let mut m = screen(0, "DP-1", 1920, 1080, 60_000, &[]);
    assert_eq!(m.key(), "DP-1");
    m.description = "Dell U2720Q".into();
    assert_eq!(m.key(), "Dell U2720Q");
}

#[test]
fn eval_needs_success_and_ok() {
    assert!(eval_succeeded(true, " ok\n"));
    assert!(!eval_succeeded(true, "error: bad rule"));
    assert!(!eval_succeeded(false, "ok"));
}

#[test]
fn geometry_of_a_screen() {
    let mut m = screen(0, "DP-1", 1920, 1080, 60_000, &["1920x1080@60.00Hz"]);
    m.x = -1920;
    m.y = 120;
    m.transform = 1;
    let g = Geometry::of(&m);
    assert_eq!(g.mode, "1920x1080@60.00");
    assert_eq!(g.position, "-1920x120");
    assert_eq!(g.scale_micro, 1_000_000);
    assert_eq!(g.transform, 1);
}

#[test]
fn record_remembers_extended_screens_only() {
    let mut a = screen(0, "DP-1", 1920, 1080, 60_000, &[]);
    a.description = "Dell".into();
    let mut b = screen(1, "HDMI-A-1", 1280, 720, 60_000, &[]);
    b.disabled = true;
    let mut layouts = Layouts::new();
    assert!(layouts.record(&[a.clone(), b.clone()]));
    assert_eq!(layouts.get(&a), Some(&Geometry::of(&a)));
    assert_eq!(layouts.get(&b), None);
    // Same physical screen on another port: found by its description.
    let mut moved = a.clone();
    moved.name = "DP-2".into();
    assert_eq!(layouts.get(&moved), Some(&Geometry::of(&a)));
    // Nothing new: nothing changed.
    assert!(!layouts.record(&[a.clone(), b]));
    assert_eq!(layouts.entries().len(), 1);
}

#[test]
fn layouts_from_entries_keep_the_last_of_a_key() {
    let g = |p: &str| Geometry { mode: "preferred".into(), position: p.into(), scale_micro: 1_000_000, transform: 0 };
    let layouts = Layouts::from_entries(vec![("A".into(), g("0x0")), ("B".into(), g("1x1")), ("A".into(), g("2x2"))]);
    let entries = layouts.entries();
    assert_eq!(entries.len(), 2);
    let a = entries.iter().find(|(k, _)| k == "A").unwrap();
    assert_eq!(a.1.position, "2x2");
}

#[test]
fn record_reports_a_change_exactly_when_a_screen_moved() {
    let a = screen(0, "DP-1", 1920, 1080, 60_000, &[]);
    let mut layouts = Layouts::new();
    assert!(layouts.record(&[a.clone()]));
    let mut moved = a.clone();
    moved.x = 1920;
    assert!(layouts.record(&[moved.clone()]));
    assert!(!layouts.record(&[moved.clone()]));
    let mut off = moved.clone();
    off.disabled = true;
    assert!(!layouts.record(&[off]));
}
