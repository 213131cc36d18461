use switchout::setup::{current_key, normalize, strip_block, BEGIN, END};

#[test]
fn normalizes_keys() {
    assert_eq!(normalize("super+d").unwrap(), "SUPER + d");
    assert_eq!(normalize("SUPER + Return").unwrap(), "SUPER + Return");
    assert_eq!(normalize(" SUPER + shift+ F12 ").unwrap(), "SUPER + SHIFT + F12");
    assert!(normalize("SUPER +").is_err());
}

#[test]
fn strips_only_our_block() {
    let config = format!("a\n{BEGIN}\nhl.bind(\"SUPER + D\", x)\n{END}\nb\n");
    assert_eq!(strip_block(&config), "a\nb\n");
    assert_eq!(strip_block("a\nb\n"), "a\nb\n");
    assert_eq!(current_key(&config).as_deref(), Some("SUPER + D"));
    assert_eq!(current_key("a\n").as_deref(), None);
}
