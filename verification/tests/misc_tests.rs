use excel_tool::cell_helper::json_from_i64;
use excel_tool::custom_encode::{codes_from_json, codes_from_lines, encode_map_of};
use excel_tool::enum_helper::{parse_enums, try_parse_enum_type};
use excel_tool::generate::ensure_path_target;
use excel_tool::json::{scalar_to_string, Json};
use excel_tool::path_helper::{has_separator, path_normalize};
use excel_tool::str_map::StrMap;

fn get<'a>(m: &'a StrMap<String>, k: &str) -> Option<&'a str> {
    m.get(&k.to_string()).map(String::as_str)
}

#[test]
fn codes_from_text_lines() {
    let m = codes_from_lines("abc 1\r\n  def\t2 extra\nlonely\n\n  \nabc 3\n");
    assert_eq!(get(&m, "abc"), Some("3"));
    assert_eq!(get(&m, "def"), Some("2"));
    assert_eq!(get(&m, "lonely"), Some("0"));
    assert_eq!(m.len(), 3);
}

#[test]
fn codes_from_a_json_object() {
    let m = codes_from_json(r#"{"a": 1, "b": "x", "c": [1, 2]}"#).unwrap();
    assert_eq!(get(&m, "a"), Some("1"));
    assert_eq!(get(&m, "b"), Some("\"x\""));
    assert_eq!(get(&m, "c"), Some("[1,2]"));
    assert!(codes_from_json("[1]").is_err());
}

#[test]
fn the_extension_decides_how_codes_are_read() {
    assert_eq!(get(&encode_map_of("codes.json", r#"{"k": 2}"#).unwrap(), "k"), Some("2"));
    assert_eq!(get(&encode_map_of("codes.txt", "k 5").unwrap(), "k"), Some("5"));
    assert_eq!(get(&encode_map_of("codes", "k 7").unwrap(), "k"), Some("7"));
    assert_eq!(encode_map_of("codes.csv", "k 5").unwrap().len(), 0);
}

#[test]
fn enums_of_the_settings() {
    assert!(try_parse_enum_type("A = x").is_none());
    assert!(try_parse_enum_type("A = 9223372036854775807").is_none());
    let mut enums: StrMap<String> = StrMap::new();
    enums.insert("Color".to_string(), "Red\nBlue = 4\nGreen".to_string());
    let m = parse_enums(&enums).unwrap();
    let color = m.get(&"Color".to_string()).unwrap();
    assert_eq!(color.get(&"Green".to_string()), Some(&5));
    enums.insert("Bad".to_string(), "X = y".to_string());
    assert!(parse_enums(&enums).is_none());
}

#[test]
fn setting_paths() {
    assert_eq!(ensure_path_target("/base", ""), None);
    assert_eq!(ensure_path_target("/base", "a/./b/../c.txt"), Some("/base/a/c.txt".to_string()));
    assert_eq!(path_normalize("a/./b/../c"), "a/c");
    assert_eq!(path_normalize("/x/../../y"), "y");
}

#[test]
fn integers_as_json() {
    assert!(matches!(json_from_i64(-3), Json::Int(-3)));
}

#[test]
fn string_scalars_are_quoted_and_escaped() {
    let s = Json::Str("a\"b\\c\n\u{1}é".to_string());
    assert_eq!(scalar_to_string(&s), "\"a\\\"b\\\\c\\n\\u0001é\"");
    assert_eq!(scalar_to_string(&Json::Int(-3)), "-3");
}

#[test]
fn separators_in_an_extension_are_found() {
    assert!(!has_separator("meta"));
    assert!(has_separator("a/b"));
    assert!(has_separator("a\\b"));
}

#[test]
fn cleaning_a_joined_path() {
    assert_eq!(ensure_path_target("/base", "../x"), Some("/x".to_string()));
    assert_eq!(ensure_path_target("/", "../x"), Some("/x".to_string()));
    assert_eq!(ensure_path_target("a", "../.."), Some("..".to_string()));
    assert_eq!(ensure_path_target(".", "."), Some(".".to_string()));
}
