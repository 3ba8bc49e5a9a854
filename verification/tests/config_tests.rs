use excel_tool::config::{
    get_default_format, get_default_meta_ext, get_default_mode, get_default_path, get_default_row_attr_mark,
    get_default_row_transpose_mark, get_default_row_var_mark, get_default_zip, parse_enum_value, parse_key_value,
    Config, ConfigArgs,
};
use excel_tool::str_map::StrMap;

const TOML_TEXT: &str = r#"
mode = "debug"
input = "toml_input"
output = "toml_output"
format = "json"
is_write_meta = true
meta_ext = "meta"
[global_key_case]
"en" = "en"
[global_attr_by_key]
"name" = "type=string"
[specified_output]
"sheet1" = "out/sheet1.txt"
[enums]
Color = "Red = 1\nGreen"
"#;

fn text_or(t: &toml::Table, key: &str, default: String) -> String {
    t.get(key).and_then(|v| v.as_str()).map(|s| s.to_string()).unwrap_or(default)
}

fn table_of(t: &toml::Table, key: &str) -> StrMap<String> {
    let mut m = StrMap::new();
    if let Some(tab) = t.get(key).and_then(|v| v.as_table()) {
        for (k, v) in tab {
            m.insert(k.clone(), v.as_str().unwrap_or("").to_string());
        }
    }
    m
}

/// Reads the settings file the way the configuration loader does, with the
/// same defaults for the settings it does not hold.
fn config_from_toml(text: &str) -> Config {
    let t: toml::Table = text.parse().unwrap();
    Config {
        mode: text_or(&t, "mode", get_default_mode()),
        input: text_or(&t, "input", get_default_path()),
        output: text_or(&t, "output", get_default_path()),
        format: text_or(&t, "format", get_default_format()),
        epsilon_bits: t.get("epsilon").and_then(|v| v.as_float()).unwrap_or(0.0).to_bits(),
        zip: text_or(&t, "zip", get_default_zip()),
        custom_encode_map_path: text_or(&t, "custom_encode_map_path", String::new()),
        key_case: text_or(&t, "key_case", String::new()),
        is_whitelist_mode: t.get("is_whitelist_mode").and_then(|v| v.as_bool()).unwrap_or(false),
        is_write_meta: t.get("is_write_meta").and_then(|v| v.as_bool()).unwrap_or(false),
        meta_ext: text_or(&t, "meta_ext", get_default_meta_ext()),
        row_transpose_mark: text_or(&t, "row_transpose_mark", get_default_row_transpose_mark()),
        row_var_mark: text_or(&t, "row_var_mark", get_default_row_var_mark()),
        row_attr_mark: text_or(&t, "row_attr_mark", get_default_row_attr_mark()),
        attrs: table_of(&t, "attrs"),
        global_key_case: table_of(&t, "global_key_case"),
        global_attr_by_key: table_of(&t, "global_attr_by_key"),
        specified_output: table_of(&t, "specified_output"),
        enums: table_of(&t, "enums"),
    }
}

fn get<'a>(m: &'a StrMap<String>, k: &str) -> Option<&'a str> {
    m.get(&k.to_string()).map(String::as_str)
}

#[test]
fn empty_cli_args_keep_toml_config() {
    let mut cfg = config_from_toml(TOML_TEXT);
    cfg.apply_cli_args(&ConfigArgs::default());

    assert_eq!(cfg.mode, "debug");
    assert_eq!(cfg.input, "toml_input");
    assert_eq!(cfg.output, "toml_output");
    assert_eq!(cfg.format, "json");
    assert!(cfg.is_write_meta);
    assert_eq!(cfg.meta_ext, "meta");
    assert_eq!(get(&cfg.global_key_case, "en"), Some("en"));
    assert_eq!(get(&cfg.global_attr_by_key, "name"), Some("type=string"));
    assert_eq!(get(&cfg.specified_output, "sheet1"), Some("out/sheet1.txt"));
    assert_eq!(get(&cfg.enums, "Color"), Some("Red = 1\nGreen"));
}

#[test]
fn cli_args_override_toml_config() {
    let mut cfg = config_from_toml(TOML_TEXT);
    let args = ConfigArgs {
        mode: Some("release".to_string()),
        input: Some("cli_input".to_string()),
        format: Some("txt".to_string()),
        epsilon_bits: Some(1e-9f64.to_bits()),
        is_write_meta: Some(false),
        key_case: Some("camelCase".to_string()),
        global_key_case: vec![("en".to_string(), "EN".to_string()), ("jp".to_string(), "jp".to_string())],
        ..Default::default()
    };
    cfg.apply_cli_args(&args);

    assert_eq!(cfg.mode, "release");
    assert_eq!(cfg.input, "cli_input");
    assert_eq!(cfg.format, "txt");
    assert_eq!(f64::from_bits(cfg.epsilon_bits), 1e-9);
    assert!(!cfg.is_write_meta);
    assert_eq!(cfg.key_case, "camelCase");

    assert_eq!(cfg.output, "toml_output");
    assert_eq!(cfg.meta_ext, "meta");
    assert_eq!(get(&cfg.specified_output, "sheet1"), Some("out/sheet1.txt"));

    assert_eq!(get(&cfg.global_key_case, "en"), Some("EN"));
    assert_eq!(get(&cfg.global_key_case, "jp"), Some("jp"));
}

#[test]
fn enum_arg_restores_newlines() {
    let (name, text) = parse_enum_value("Color=Red = 1\\nGreen\\nYellow").unwrap();
    assert_eq!(name, "Color");
    assert_eq!(text, "Red = 1\nGreen\nYellow");
}

#[test]
fn key_value_is_split_at_the_first_equals_and_the_key_trimmed() {
    assert_eq!(parse_key_value(" name =type=string").unwrap(), ("name".to_string(), "type=string".to_string()));
}

#[test]
fn key_value_without_key_is_refused() {
    assert_eq!(parse_key_value(" =x").unwrap_err(), "参数格式应为 KEY=VALUE, 当前传入: ` =x`");
    assert!(parse_key_value("novalue").is_err());
}

#[test]
fn later_cli_pair_wins_over_earlier_one() {
    let mut cfg = config_from_toml(TOML_TEXT);
    let args = ConfigArgs {
        specified_output: vec![("a".to_string(), "1".to_string()), ("a".to_string(), "2".to_string())],
        ..Default::default()
    };
    cfg.apply_cli_args(&args);
    assert_eq!(get(&cfg.specified_output, "a"), Some("2"));
    assert_eq!(get(&cfg.specified_output, "sheet1"), Some("out/sheet1.txt"));
}

#[test]
fn defaults_of_the_settings() {
    let cfg = config_from_toml("");
    assert_eq!(cfg.mode, "debug");
    assert_eq!(cfg.input, "./");
    assert_eq!(cfg.zip, "gzip");
    assert_eq!(cfg.meta_ext, "meta");
    assert_eq!(cfg.row_transpose_mark, "##transpose");
    assert_eq!(cfg.row_var_mark, "##var");
    assert_eq!(cfg.row_attr_mark, "##attr");
    assert!(cfg.is_debug());
    assert!(!cfg.is_release());
}
