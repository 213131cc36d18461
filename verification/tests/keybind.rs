use switchout::setup::{
    assemble_key, bound_to, config_rejection, config_with_bind, config_without_bind, current_key,
    key_mask, normalize, strip_block, Bind, BEGIN, END,
};

#[test]
fn install_writes_a_block_that_reads_back() {
    let config = "a\nb\n";
    let new = config_with_bind(config, "SUPER + D", "/usr/bin/switchout");
    assert_eq!(
        new,
        format!("a\nb\n\n{BEGIN}\nhl.bind(\"SUPER + D\", hl.dsp.exec_cmd(\"/usr/bin/switchout menu\"))\n{END}\n")
    );
    assert_eq!(current_key(&new).as_deref(), Some("SUPER + D"));
    // Installing again changes nothing.
    assert_eq!(config_with_bind(&new, "SUPER + D", "/usr/bin/switchout"), new);
}

#[test]
fn install_escapes_the_program_path() {
    let new = config_with_bind("", "SUPER + D", "C:\\a \"b\"");
    assert!(new.contains("hl.dsp.exec_cmd(\"C:\\\\a \\\"b\\\" menu\")"));
}

#[test]
fn remove_undoes_install() {
    let config = "a\nb\n";
    let new = config_with_bind(config, "SUPER + D", "/usr/bin/switchout");
    assert_eq!(config_without_bind(&new).as_deref(), Some("a\nb\n"));
    assert_eq!(config_without_bind(config), None);
}

#[test]
fn strip_keeps_an_unterminated_block_out() {
    let config = format!("x\n{BEGIN}\nhl.bind(\"A\", y)\n");
    assert_eq!(strip_block(&config), "x\n");
    assert_eq!(strip_block("x\r\ny"), "x\r\ny");
}

#[test]
fn current_key_needs_the_bind_right_after_the_opening_line() {
    let config = format!("{BEGIN}\nsomething else\n{END}\n");
    assert_eq!(current_key(&config), None);
}

#[test]
fn assemble_refuses_empty_parts() {
    assert_eq!(assemble_key(&vec!["SUPER".into(), "d".into()]).as_deref(), Some("SUPER + d"));
    assert_eq!(assemble_key(&vec!["SUPER".into(), String::new()]), None);
}

#[test]
fn key_masks() {
    assert_eq!(key_mask("SUPER + SHIFT + d"), Some((65, "d".to_string())));
    assert_eq!(key_mask("CTRL + ALT + Delete"), Some((12, "Delete".to_string())));
    assert_eq!(key_mask("F12"), Some((0, "F12".to_string())));
    assert_eq!(key_mask("HYPER + d"), None);
    assert_eq!(key_mask("MOD1 + D"), Some((8, "D".to_string())));
    assert_eq!(key_mask("SUPER + MOD1 + D"), Some((72, "D".to_string())));
}

fn bind(modmask: u32, key: &str, dispatcher: &str, arg: &str, description: &str) -> Bind {
    Bind {
        modmask,
        key: key.into(),
        arg: arg.into(),
        dispatcher: dispatcher.into(),
        description: description.into(),
    }
}

#[test]
fn describes_what_a_key_is_bound_to() {
    let binds = vec![
        bind(64, "Q", "killactive", "", ""),
        bind(64, "D", "exec", "rofi -show drun", ""),
        bind(65, "D", "__lua", "", ""),
        bind(8, "F4", "exec", "x", "close window"),
    ];
    assert_eq!(bound_to(&binds, 64, "d").as_deref(), Some("exec rofi -show drun"));
    assert_eq!(bound_to(&binds, 64, "q").as_deref(), Some("killactive"));
    assert_eq!(bound_to(&binds, 65, "D").as_deref(), Some("another action"));
    assert_eq!(bound_to(&binds, 8, "F4").as_deref(), Some("close window"));
    assert_eq!(bound_to(&binds, 4, "D"), None);
}

#[test]
fn config_check_output() {
    assert_eq!(config_rejection("config ok\n"), None);
    assert_eq!(
        config_rejection("noise\nConfig parsing result:\n  error in .hyprland.switchout-check.lua:3\n").as_deref(),
        Some("error in hyprland.lua:3")
    );
    assert_eq!(config_rejection(" broken ").as_deref(), Some("broken"));
}

#[test]
fn stripping_twice_is_stripping_once() {
    let config = format!("x\n{BEGIN}\nhl.bind(\"A\", y)\n{END}\n\n\nz");
    let once = strip_block(&config);
    assert_eq!(once, "x\n\n\nz");
    assert_eq!(strip_block(&once), once);
}

#[test]
fn key_names_are_kept_as_written() {
    let k = normalize("ctrl + alt +XF86AudioMute ").unwrap();
    assert_eq!(k, "CTRL + ALT + XF86AudioMute");
    assert!(k.ends_with("XF86AudioMute"));
    assert_eq!(normalize("Return").unwrap(), "Return");
}

#[test]
fn lines_outside_the_block_keep_their_endings() {
    let config = format!("a\r\n{BEGIN}\r\nhl.bind(\"SUPER + D\", x)\r\n{END}\r\nb");
    assert_eq!(strip_block(&config), "a\r\nb");
    assert_eq!(current_key(&config).as_deref(), Some("SUPER + D"));
    assert_eq!(strip_block("a\r\nb\r\n"), "a\r\nb\r\n");
}

#[test]
fn remove_leaves_a_config_without_block_alone() {
    assert_eq!(config_without_bind("a"), None);
    assert_eq!(config_without_bind("a\r\nb\r\n"), None);
    assert_eq!(config_without_bind(""), None);
}

#[test]
fn install_and_remove_keep_other_lines() {
    let config = "a\r\nb\r\n";
    let new = config_with_bind(config, "SUPER + D", "/bin/s");
    assert!(new.starts_with("a\r\nb\r\n\n"));
    assert_eq!(config_without_bind(&new).as_deref(), Some(config));
    assert_eq!(config_with_bind(&new, "SUPER + D", "/bin/s"), new);
}

#[test]
fn install_ends_an_unterminated_last_line() {
    let new = config_with_bind("a", "SUPER + D", "/bin/s");
    assert_eq!(
        new,
        format!("a\n\n{BEGIN}\nhl.bind(\"SUPER + D\", hl.dsp.exec_cmd(\"/bin/s menu\"))\n{END}\n")
    );
    assert_eq!(config_with_bind(&new, "SUPER + D", "/bin/s"), new);
    assert_eq!(config_without_bind(&new).as_deref(), Some("a\n"));
}

#[test]
fn normalize_fails_exactly_on_an_empty_part() {
    assert!(normalize("SUPER + + D").is_err());
    assert!(normalize(" + D").is_err());
    assert!(normalize("").is_err());
    assert_eq!(normalize("shift+ d").unwrap(), "SHIFT + d");
}

#[test]
fn a_bind_line_broken_by_the_program_path_is_still_removed() {
    let config = "a\n";
    let new = config_with_bind(config, "SUPER + D", "/weird\npath");
    assert_eq!(config_without_bind(&new).as_deref(), Some(config));
    assert_eq!(config_with_bind(&new, "SUPER + D", "/weird\npath"), new);
    assert_eq!(current_key(&new).as_deref(), Some("SUPER + D"));
}
