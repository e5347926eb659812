use wings::config::{
    apply_line, bytes_equal, lookup_setting, parse_config, Config, ConfigError, Setting, UnknownKey,
};

fn config(h: u32, v: u32, fps: u32) -> Config {
    Config { horizontal_resolution: h, vertical_resolution: v, fps_max: fps, reserved: 0 }
}

#[test]
fn three_settings_in_every_order() {
    let lines = ["horizontal_resolution=800", "vertical_resolution=600", "fps_max=30"];
    let orders = [[0, 1, 2], [0, 2, 1], [1, 0, 2], [1, 2, 0], [2, 0, 1], [2, 1, 0]];
    for order in orders {
        let text = order.iter().map(|&i| lines[i]).collect::<Vec<_>>().join("\n");
        let parsed = parse_config(text.as_bytes()).unwrap();
        assert_eq!(parsed.config, config(800, 600, 30));
        assert!(parsed.unknown.is_empty());
    }
}

#[test]
fn unknown_key_is_reported_and_ignored() {
    let text = b"horizontal_resolution=800\nfoo=bar\nvertical_resolution=600\nfps_max=30";
    let parsed = parse_config(text).unwrap();
    assert_eq!(parsed.config, config(800, 600, 30));
    assert_eq!(parsed.unknown, vec![UnknownKey { line: 2, key: b"foo".to_vec() }]);
}

#[test]
fn non_numeric_value_is_refused_with_its_line() {
    assert_eq!(
        parse_config(b"horizontal_resolution=abc"),
        Err(ConfigError::InvalidNumber { line: 1 })
    );
    assert_eq!(
        parse_config(b"fps_max=30\nhorizontal_resolution=abc\nvertical_resolution=600"),
        Err(ConfigError::InvalidNumber { line: 2 })
    );
}

#[test]
fn line_without_separator_is_refused_with_its_line() {
    assert_eq!(
        parse_config(b"horizontal_resolution=800\nvertical_resolution=600\nfps_max"),
        Err(ConfigError::MissingSeparator { line: 3 })
    );
    assert_eq!(parse_config(b"garbage"), Err(ConfigError::MissingSeparator { line: 1 }));
}

#[test]
fn first_refused_line_gives_the_error() {
    assert_eq!(
        parse_config(b"fps_max=x\nnoseparator"),
        Err(ConfigError::InvalidNumber { line: 1 })
    );
    assert_eq!(
        parse_config(b"noseparator\nfps_max=x"),
        Err(ConfigError::MissingSeparator { line: 1 })
    );
}

#[test]
fn absent_keys_keep_placeholder_values() {
    let parsed = parse_config(b"").unwrap();
    assert_eq!(parsed.config, config(10, 10, 0));
    assert_eq!(Config::placeholder(), config(10, 10, 0));
    let parsed = parse_config(b"fps_max=144").unwrap();
    assert_eq!(parsed.config, config(10, 10, 144));
}

#[test]
fn empty_lines_are_skipped_but_counted() {
    let parsed = parse_config(b"\n\nfps_max=30\n\nbar=1\n").unwrap();
    assert_eq!(parsed.config, config(10, 10, 30));
    assert_eq!(parsed.unknown, vec![UnknownKey { line: 5, key: b"bar".to_vec() }]);
}

#[test]
fn later_line_overrides_earlier_one() {
    let parsed = parse_config(b"fps_max=30\nfps_max=60").unwrap();
    assert_eq!(parsed.config.fps_max, 60);
}

#[test]
fn values_are_not_trimmed() {
    assert_eq!(parse_config(b"fps_max= 30"), Err(ConfigError::InvalidNumber { line: 1 }));
    assert_eq!(parse_config(b"fps_max=30\r"), Err(ConfigError::InvalidNumber { line: 1 }));
    let parsed = parse_config(b" fps_max=30").unwrap();
    assert_eq!(parsed.config, config(10, 10, 0));
    assert_eq!(parsed.unknown, vec![UnknownKey { line: 1, key: b" fps_max".to_vec() }]);
}

#[test]
fn value_runs_from_the_first_separator() {
    assert_eq!(parse_config(b"fps_max=6=0"), Err(ConfigError::InvalidNumber { line: 1 }));
    assert_eq!(parse_config(b"fps_max="), Err(ConfigError::InvalidNumber { line: 1 }));
}

#[test]
fn largest_and_overflowing_values() {
    let parsed = parse_config(b"horizontal_resolution=4294967295").unwrap();
    assert_eq!(parsed.config.horizontal_resolution, u32::MAX);
    assert_eq!(
        parse_config(b"horizontal_resolution=4294967296"),
        Err(ConfigError::InvalidNumber { line: 1 })
    );
}

#[test]
fn reserved_field_has_no_key() {
    let parsed = parse_config(b"clown_cakes=5").unwrap();
    assert_eq!(parsed.config.reserved, 0);
    assert_eq!(parsed.unknown, vec![UnknownKey { line: 1, key: b"clown_cakes".to_vec() }]);
}

#[test]
fn lookup_setting_knows_three_keys() {
    assert_eq!(lookup_setting(b"horizontal_resolution"), Some(Setting::HorizontalResolution));
    assert_eq!(lookup_setting(b"vertical_resolution"), Some(Setting::VerticalResolution));
    assert_eq!(lookup_setting(b"fps_max"), Some(Setting::FpsMax));
    assert_eq!(lookup_setting(b"fps_maxx"), None);
    assert_eq!(lookup_setting(b"FPS_MAX"), None);
    assert_eq!(lookup_setting(b""), None);
}

#[test]
fn bytes_equal_compares_contents() {
    assert!(bytes_equal(b"abc", b"abc"));
    assert!(!bytes_equal(b"abc", b"abd"));
    assert!(!bytes_equal(b"abc", b"ab"));
    assert!(bytes_equal(b"", b""));
}

#[test]
fn set_changes_one_field() {
    let mut c = config(1, 2, 3);
    c.set(Setting::VerticalResolution, 9);
    assert_eq!(c, config(1, 9, 3));
    c.set(Setting::HorizontalResolution, 7);
    c.set(Setting::FpsMax, 0);
    assert_eq!(c, config(7, 9, 0));
}

#[test]
fn apply_line_updates_state() {
    let mut c = Config::placeholder();
    let mut unknown = Vec::new();
    assert_eq!(apply_line(&mut c, &mut unknown, b"fps_max=30", 4), Ok(()));
    assert_eq!(c.fps_max, 30);
    assert_eq!(apply_line(&mut c, &mut unknown, b"x=y", 5), Ok(()));
    assert_eq!(unknown, vec![UnknownKey { line: 5, key: b"x".to_vec() }]);
    assert_eq!(apply_line(&mut c, &mut unknown, b"", 6), Ok(()));
    assert_eq!(apply_line(&mut c, &mut unknown, b"xy", 7), Err(ConfigError::MissingSeparator { line: 7 }));
    assert_eq!(apply_line(&mut c, &mut unknown, b"fps_max=-1", 8), Err(ConfigError::InvalidNumber { line: 8 }));
}
