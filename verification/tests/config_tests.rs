use strelka::config::Config;
use strelka::config_text::ConfigError;
use strelka::value::{Color, Value};

#[test]
fn test2() {
    let text = "
            [system]
            scale = 2.0
            version = 128
            accent = \"#ffffff\"
            name = \"Strelka\"
            debug = false
        ";
    let config: Config = Config::parse(text).unwrap();
    assert_eq!(
        config.get("system", "scale"),
        Some(Value::Float((2.0f64).to_bits()))
    );
    assert_eq!(config.get("system", "version"), Some(Value::Integer(128)));
    assert_eq!(
        config.get("system", "accent"),
        Some(Value::Color(Color { r: 255, g: 255, b: 255, a: 255 }))
    );
    assert_eq!(
        config.get("system", "name"),
        Some(Value::Text(String::from("Strelka")))
    );
    assert_eq!(config.get("system", "debug"), Some(Value::Boolean(false)));
}

#[test]
fn insert_then_get_returns_value() {
    let mut c = Config::new();
    c.insert("system", "theme", Value::Text(String::from("core.dark")));
    assert_eq!(
        c.get("system", "theme"),
        Some(Value::Text(String::from("core.dark")))
    );
}

#[test]
fn insert_overwrites() {
    let mut c = Config::new();
    c.insert("ns", "p", Value::Integer(1));
    c.insert("ns", "p", Value::Integer(2));
    assert_eq!(c.get("ns", "p"), Some(Value::Integer(2)));
}

#[test]
fn get_unknown_is_none() {
    let c = Config::new();
    assert_eq!(c.get("nope", "nothing"), None);
}

#[test]
fn remove_property_returns_old_value() {
    let mut c = Config::new();
    c.insert("ns", "p", Value::Boolean(true));
    assert_eq!(c.remove_property("ns", "p"), Some(Value::Boolean(true)));
    assert_eq!(c.get("ns", "p"), None);
    assert_eq!(c.remove_property("ns", "p"), None);
    assert_eq!(c.remove_property("other", "p"), None);
}

#[test]
fn merge_prefers_other() {
    let mut a = Config::new();
    a.insert("system", "theme", Value::Text(String::from("core.light")));
    a.insert("system", "scale", Value::Integer(1));
    let mut b = Config::new();
    b.insert("system", "theme", Value::Text(String::from("core.dark")));
    b.insert("editor", "tabs", Value::Integer(4));
    a.merge(&b);
    assert_eq!(
        a.get("system", "theme"),
        Some(Value::Text(String::from("core.dark")))
    );
    assert_eq!(a.get("system", "scale"), Some(Value::Integer(1)));
    assert_eq!(a.get("editor", "tabs"), Some(Value::Integer(4)));
}

#[test]
fn round_trip_all_variants() {
    let mut c = Config::new();
    c.insert("system", "version", Value::Integer(128));
    c.insert("system", "offset", Value::Integer(-7));
    c.insert("system", "debug", Value::Boolean(false));
    c.insert("system", "name", Value::Text(String::from("Strelka")));
    c.insert("system", "accent", Value::Color(Color { r: 0x11, g: 0x22, b: 0x33, a: 0xff }));
    c.insert("editor", "scale", Value::Float((2.0f64).to_bits()));
    c.insert("editor", "drift", Value::Float((-3.0f64).to_bits()));
    let text = c.serialize().unwrap();
    let back = Config::parse(text.as_str()).unwrap();
    assert_eq!(back.get("system", "version"), Some(Value::Integer(128)));
    assert_eq!(back.get("system", "offset"), Some(Value::Integer(-7)));
    assert_eq!(back.get("system", "debug"), Some(Value::Boolean(false)));
    assert_eq!(
        back.get("system", "name"),
        Some(Value::Text(String::from("Strelka")))
    );
    assert_eq!(
        back.get("system", "accent"),
        Some(Value::Color(Color { r: 0x11, g: 0x22, b: 0x33, a: 0xff }))
    );
    assert_eq!(back.get("editor", "scale"), Some(Value::Float((2.0f64).to_bits())));
    assert_eq!(back.get("editor", "drift"), Some(Value::Float((-3.0f64).to_bits())));
}

#[test]
fn color_round_trip_lowercases() {
    let c = Config::parse("[ui]\naccent = \"#A1B2C3D4\"\n").unwrap();
    let got = c.get("ui", "accent");
    assert_eq!(
        got,
        Some(Value::Color(Color { r: 0xa1, g: 0xb2, b: 0xc3, a: 0xd4 }))
    );
    let text = c.serialize().unwrap();
    assert!(text.contains("#a1b2c3d4"));
}

#[test]
fn six_digit_color_gets_full_alpha() {
    let c = Config::parse("[ui]\naccent = \"#112233\"\n").unwrap();
    assert_eq!(
        c.get("ui", "accent"),
        Some(Value::Color(Color { r: 0x11, g: 0x22, b: 0x33, a: 0xff }))
    );
}

#[test]
fn parse_rejects_key_outside_table() {
    assert!(matches!(Config::parse("key = 1\n"), Err(ConfigError::Parse)));
}

#[test]
fn parse_rejects_arrays_and_garbage() {
    assert!(matches!(Config::parse("[a]\nxs = [1, 2]\n"), Err(ConfigError::Parse)));
    assert!(matches!(Config::parse("[a]\nwhat\n"), Err(ConfigError::Parse)));
    assert!(matches!(Config::parse("[a]]\n"), Err(ConfigError::Parse)));
}

#[test]
fn parse_rejects_integer_overflow() {
    assert!(matches!(
        Config::parse("[a]\nbig = 9223372036854775808\n"),
        Err(ConfigError::Parse)
    ));
    let c = Config::parse("[a]\nbig = 9223372036854775807\nsmall = -9223372036854775808\n")
        .unwrap();
    assert_eq!(c.get("a", "big"), Some(Value::Integer(i64::MAX)));
    assert_eq!(c.get("a", "small"), Some(Value::Integer(i64::MIN)));
}

#[test]
fn parse_accepts_comments_and_blanks() {
    let c = Config::parse("# leading note\n\n[a]\n# inside\nx = 1\n").unwrap();
    assert_eq!(c.get("a", "x"), Some(Value::Integer(1)));
}

#[test]
fn parse_float_zero_and_signs() {
    let c = Config::parse("[a]\nz = 0.0\nnz = -0.0\nneg = -5.0\n").unwrap();
    assert_eq!(c.get("a", "z"), Some(Value::Float((0.0f64).to_bits())));
    assert_eq!(c.get("a", "nz"), Some(Value::Float((-0.0f64).to_bits())));
    assert_eq!(c.get("a", "neg"), Some(Value::Float((-5.0f64).to_bits())));
}

#[test]
fn parse_rejects_fractional_float() {
    assert!(matches!(Config::parse("[a]\nhalf = 0.5\n"), Err(ConfigError::Parse)));
}

#[test]
fn text_with_quotes_and_breaks_round_trips() {
    let mut c = Config::new();
    c.insert("a", "x", Value::Text(String::from("he said \"hi\\there\"\nbye")));
    let text = c.serialize().unwrap();
    let back = Config::parse(text.as_str()).unwrap();
    assert_eq!(
        back.get("a", "x"),
        Some(Value::Text(String::from("he said \"hi\\there\"\nbye")))
    );
}

#[test]
fn escapes_are_written_canonically() {
    let mut c = Config::new();
    c.insert("a", "x", Value::Text(String::from("a\"b\\c\nd")));
    assert_eq!(c.serialize().unwrap(), "[a]\nx = \"a\\\"b\\\\c\\nd\"\n");
}

#[test]
fn parse_rejects_bad_escapes() {
    assert!(matches!(Config::parse("[a]\nx = \"a\\z\"\n"), Err(ConfigError::Parse)));
    assert!(matches!(Config::parse("[a]\nx = \"a\"b\"\n"), Err(ConfigError::Parse)));
}

#[test]
fn serialize_rejects_fractional_float() {
    let mut c = Config::new();
    c.insert("a", "x", Value::Float((2.5f64).to_bits()));
    assert!(matches!(c.serialize(), Err(ConfigError::Serialize)));
}

#[test]
fn resolve_loaded_prefers_file_content() {
    let mut default = Config::new();
    default.insert("system", "theme", Value::Text(String::from("core.light")));
    let file = "[system]\ntheme = \"core.dark\"\naccent = \"#112233\"\n";
    let outcome = Config::resolve_loaded(Some(file), default).unwrap();
    assert!(outcome.write_back.is_none());
    assert_eq!(
        outcome.config.get("system", "theme"),
        Some(Value::Text(String::from("core.dark")))
    );
    assert_eq!(
        outcome.config.get("system", "accent"),
        Some(Value::Color(Color { r: 0x11, g: 0x22, b: 0x33, a: 0xff }))
    );
}

#[test]
fn resolve_loaded_writes_default_when_absent() {
    let mut default = Config::new();
    default.insert("system", "theme", Value::Text(String::from("core.light")));
    let outcome = Config::resolve_loaded(None, default).unwrap();
    assert_eq!(
        outcome.config.get("system", "theme"),
        Some(Value::Text(String::from("core.light")))
    );
    let written = outcome.write_back.unwrap();
    let reread = Config::parse(written.as_str()).unwrap();
    assert_eq!(
        reread.get("system", "theme"),
        Some(Value::Text(String::from("core.light")))
    );
}

#[test]
fn resolve_loaded_never_overwrites_bad_file() {
    let default = Config::new();
    assert!(matches!(
        Config::resolve_loaded(Some("not a config"), default),
        Err(ConfigError::Parse)
    ));
}

#[test]
fn serialize_emits_canonical_lines() {
    let mut c = Config::new();
    c.insert("a", "x", Value::Integer(1));
    c.insert("a", "flag", Value::Boolean(true));
    c.insert("b", "name", Value::Text(String::from("hey")));
    assert_eq!(
        c.serialize().unwrap(),
        "[a]\nx = 1\nflag = true\n[b]\nname = \"hey\"\n"
    );
}

#[test]
fn parse_tolerates_windows_line_endings() {
    let c = Config::parse("[a]\r\nx = 1\r\n").unwrap();
    assert_eq!(c.get("a", "x"), Some(Value::Integer(1)));
}
