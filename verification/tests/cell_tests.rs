use excel_tool::cell_helper::{
    convert_cell_to_json, get_cell_type_by_name, get_default_json_by_cell_type, parse_attr, parse_function,
    str_converter, CellTypes, TheadAttr,
};
use excel_tool::enum_helper::parse_enum_type;
use excel_tool::flatten::{fill_auto_indexes, get_json_list_by_table, set_json_value, FlattenKey, FlattenPart};
use excel_tool::hash::fnv1a32;
use excel_tool::json::Json;
use excel_tool::str_map::StrMap;

fn show(j: &Json) -> String {
    match j {
        Json::Null => "null".to_string(),
        Json::Bool(b) => b.to_string(),
        Json::Int(i) => i.to_string(),
        Json::Float(f) => f.clone(),
        Json::Str(s) => format!("{s:?}"),
        Json::Array(v) => format!("[{}]", v.iter().map(show).collect::<Vec<_>>().join(",")),
        Json::Object(m) => format!("{{{}}}", m.iter().map(|(k, v)| format!("{k:?}:{}", show(v))).collect::<Vec<_>>().join(",")),
    }
}

fn parse_float(s: &str) -> Option<Json> {
    s.parse::<f64>().ok().map(|f| Json::Float(f.to_string()))
}

fn same(s: &str) -> String {
    s.to_string()
}

#[test]
fn fnv1a32_values() {
    assert_eq!(fnv1a32(b""), 0);
    assert_eq!(fnv1a32(b"a"), 0xe40c292c);
    assert_eq!(fnv1a32(b"foobar"), 0xbf9cf968);
}

#[test]
fn converters() {
    assert_eq!(str_converter("hex", "ff"), "255");
    assert_eq!(str_converter("hex", "zz"), "zz");
    assert_eq!(str_converter("DEC", "255"), "FF");
    assert_eq!(str_converter("dec", "-1"), "FFFFFFFFFFFFFFFF");
    assert_eq!(str_converter("fnv1a_32", "a"), "3826002220");
    assert_eq!(str_converter("camel_case", "hello_world"), "helloWorld");
    assert_eq!(str_converter("PascalCase", "hello world"), "HelloWorld");
    assert_eq!(str_converter("snake_case", "HelloWorld"), "hello_world");
    assert_eq!(str_converter("", "Keep Me"), "Keep Me");
}

#[test]
fn enum_definitions_count_on() {
    let m = parse_enum_type("Red = 1\nGreen\nYellow,\n\n Blue = 5\nBlack");
    let get = |k: &str| m.get(&k.to_string()).copied();
    assert_eq!(get("Red"), Some(1));
    assert_eq!(get("Green"), Some(2));
    assert_eq!(get("Yellow"), Some(3));
    assert_eq!(get("Blue"), Some(5));
    assert_eq!(get("Black"), Some(6));
    assert_eq!(m.len(), 5);
}

#[test]
fn cell_types_by_name() {
    let mut enums: StrMap<StrMap<i64>> = StrMap::new();
    enums.insert("Color".to_string(), parse_enum_type("Red\nBlue"));
    assert_eq!(get_cell_type_by_name("string?", &enums), CellTypes::NullableString);
    assert_eq!(get_cell_type_by_name("bool", &enums), CellTypes::Bool);
    assert_eq!(get_cell_type_by_name("Color", &enums), CellTypes::Enum);
    assert_eq!(get_cell_type_by_name("Size", &enums), CellTypes::Unknown);
    assert_eq!(show(&get_default_json_by_cell_type(CellTypes::Number)), "0");
    assert_eq!(show(&get_default_json_by_cell_type(CellTypes::NullableBool)), "null");
    assert_eq!(show(&get_default_json_by_cell_type(CellTypes::Unknown)), "\"\"");
}

#[test]
fn attributes_from_a_query_string() {
    let enums: StrMap<StrMap<i64>> = StrMap::new();
    let a = parse_attr("type=bool&default=1&cut=3&prefix=p%20", &TheadAttr::default(), &enums);
    assert_eq!(a.cell_type, CellTypes::Bool);
    assert_eq!(a.cell_type_raw, "bool");
    assert_eq!(a.cell_default, "1");
    assert_eq!(a.cut, 3);
    assert_eq!(a.prefix, "p ");
    assert_eq!(a.ignore, None);
    let b = parse_attr("cut=x", &a, &enums);
    assert_eq!(b.cut, 0);
    assert_eq!(b.cell_type, CellTypes::Bool);
}

#[test]
fn attributes_not_given_are_inherited_cut_included() {
    let enums: StrMap<StrMap<i64>> = StrMap::new();
    let mut base = TheadAttr::default();
    base.conv = "hex".to_string();
    base.cut = 3;
    let r = parse_attr("default=5", &base, &enums);
    assert_eq!(r.cell_default, "5");
    assert_eq!(r.conv, "hex");
    assert_eq!(r.cut, 3);
    assert_eq!(r.raw, "default=5");
}

#[test]
fn cells_to_json() {
    let enums: StrMap<StrMap<i64>> = StrMap::new();
    let codes: StrMap<String> = StrMap::new();
    let plain = TheadAttr::default();
    let (t, v) = convert_cell_to_json(&plain, &enums, &codes, "12", &parse_float).unwrap();
    assert_eq!((t, show(&v)), (CellTypes::Number, "12".to_string()));
    let (t, v) = convert_cell_to_json(&plain, &enums, &codes, "1.5", &parse_float).unwrap();
    assert_eq!((t, show(&v)), (CellTypes::Number, "1.5".to_string()));
    let (t, v) = convert_cell_to_json(&plain, &enums, &codes, "abc", &parse_float).unwrap();
    assert_eq!((t, show(&v)), (CellTypes::String, "\"abc\"".to_string()));
    let b = parse_attr("type=bool?", &plain, &enums);
    assert_eq!(show(&convert_cell_to_json(&b, &enums, &codes, "TRUE", &parse_float).unwrap().1), "true");
    assert_eq!(show(&convert_cell_to_json(&b, &enums, &codes, "0", &parse_float).unwrap().1), "false");
    assert_eq!(show(&convert_cell_to_json(&b, &enums, &codes, "null", &parse_float).unwrap().1), "null");
    let s = parse_attr("type=string&prefix=<&suffix=>", &plain, &enums);
    assert_eq!(show(&convert_cell_to_json(&s, &enums, &codes, "x", &parse_float).unwrap().1), "\"<x>\"");
}

#[test]
fn function_expressions() {
    let f = parse_function("max(1, \"a\",, 3)").unwrap();
    assert_eq!(f.name, "max");
    assert_eq!(f.params, vec!["1".to_string(), "a".to_string(), "3".to_string()]);
    assert_eq!(f.parse_at::<i32>(0), Some(1));
    assert_eq!(f.parse_at::<i32>(1), None);
    assert_eq!(f.parse_at::<i32>(9), None);
    assert!(parse_function("max(1").is_none());
    assert!(parse_function("max)").is_none());
}

#[test]
fn keys_are_read_into_parts() {
    let k = FlattenKey::new("a.b[2].c[]".to_string(), same);
    let parts: Vec<(String, Option<i32>)> = k.parts.iter().map(|p| (p.name.clone(), p.index)).collect();
    assert_eq!(parts, vec![
        ("a".to_string(), None),
        ("b".to_string(), None),
        ("2".to_string(), Some(2)),
        ("c".to_string(), None),
        ("".to_string(), Some(-1)),
    ]);
    assert_eq!(k.to_display_string(), "ab[2].c[-1]");
    assert_eq!(k.last_part_string(), "");
    let up = FlattenKey::new("x_y".to_string(), |s: &str| s.to_uppercase());
    assert_eq!(up.parts[0].name, "X_Y");
    assert!(FlattenKey::new("a[1".to_string(), same).parts.is_empty());
    assert!(FlattenKey::new(String::new(), same).parts.is_empty());
}

#[test]
fn auto_indexes_count_per_key() {
    let mut counters: StrMap<usize> = StrMap::new();
    let mut k1 = FlattenKey::new("x[].y".to_string(), same);
    assert_eq!(fill_auto_indexes(&mut k1, &mut counters), 0);
    assert_eq!(k1.parts[1].index, Some(0));
    let mut k2 = FlattenKey::new("x[].y".to_string(), same);
    fill_auto_indexes(&mut k2, &mut counters);
    assert_eq!(k2.parts[1].index, Some(1));
    let mut k3 = FlattenKey::new("a[][]".to_string(), same);
    fill_auto_indexes(&mut k3, &mut counters);
    assert_eq!((k3.parts[1].index, k3.parts[2].index), (Some(0), Some(0)));
}

#[test]
fn a_value_written_at_a_path_reads_back() {
    let mut doc = Json::Object(vec![]);
    let path = vec![FlattenPart::new_name("a".to_string()), FlattenPart::new_name("b".to_string()), FlattenPart::new_index(1)];
    set_json_value(&mut doc, &path, Json::Int(5));
    assert_eq!(show(&doc), r#"{"a":{"b":[null,5]}}"#);
    set_json_value(&mut doc, &vec![FlattenPart::new_name("a".to_string()), FlattenPart::new_name("c".to_string())], Json::Bool(true));
    assert_eq!(show(&doc), r#"{"a":{"b":[null,5],"c":true}}"#);
    set_json_value(&mut doc, &vec![FlattenPart::new_name("a".to_string()), FlattenPart::new_auto_index()], Json::Int(0));
    assert_eq!(show(&doc), r#"{"a":0}"#);
}

#[test]
fn rows_become_documents() {
    let k1 = FlattenKey::new("id".to_string(), same);
    let k2 = FlattenKey::new("tags[]".to_string(), same);
    let r1 = vec![Json::Int(1), Json::Str("x".to_string())];
    let r2 = vec![Json::Int(2)];
    let docs = get_json_list_by_table(vec![&k1, &k2], vec![&r1, &r2]);
    assert_eq!(docs.iter().map(show).collect::<Vec<_>>(), vec![r#"{"id":1,"tags":["x"]}"#, r#"{"id":2}"#]);
}

#[test]
fn hex_and_dec_undo_each_other() {
    for v in ["0", "7", "255", "9223372036854775807"] {
        assert_eq!(str_converter("hex", &str_converter("dec", v)), v);
    }
    for h in ["0", "A", "FF", "7FFFFFFFFFFFFFFF"] {
        assert_eq!(str_converter("dec", &str_converter("hex", h)), h);
    }
    assert_ne!(str_converter("hex", &str_converter("dec", "-1")), "-1");
}

#[test]
fn converter_names_ignore_case_and_underscores() {
    for s in ["hello_world", "HelloWorld", "x"] {
        let want = str_converter("pascalcase", s);
        assert_eq!(str_converter("PascalCase", s), want);
        assert_eq!(str_converter("pascal_case", s), want);
        assert_eq!(str_converter("PASCALCASE", s), want);
    }
    assert_eq!(str_converter("Snake_Case", "HelloWorld"), "hello_world");
}
