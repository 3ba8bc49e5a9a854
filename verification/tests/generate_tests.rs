use excel_tool::config::Config;
use excel_tool::excel_helper::SheetContent;
use excel_tool::generate::{
    gzip_compress, is_in_blacklist, is_input_workbook, json_pretty, sheet_bytes, sheets_to_write, is_in_whitelist, join_strings, merge_reports, meta_path, meta_text, output_data,
    read_excel, remove_after, should_compress, should_write_meta, table_text, transpose_rows, unfinished_message,
    ContentKinds, SheetResult,
};
use excel_tool::json::Json;
use excel_tool::str_map::StrMap;
use std::io::Read;

fn show(j: &Json) -> String {
    match j {
        Json::Null => "null".to_string(),
        Json::Bool(b) => b.to_string(),
        Json::Int(i) => i.to_string(),
        Json::Float(f) => f.clone(),
        Json::Str(s) => format!("{s:?}"),
        Json::Array(v) => format!("[{}]", v.iter().map(show).collect::<Vec<_>>().join(",")),
        Json::Object(m) => format!("{{{}}}", m.iter().map(|(k, v)| format!("{k:?}:{}", show(v))).collect::<Vec<_>>().join(",")),
    }
}

fn config(mode: &str, zip: &str) -> Config {
    Config {
        mode: mode.to_string(),
        input: "./".to_string(),
        output: "./".to_string(),
        format: "json".to_string(),
        epsilon_bits: 0,
        zip: zip.to_string(),
        custom_encode_map_path: String::new(),
        key_case: String::new(),
        is_whitelist_mode: false,
        is_write_meta: true,
        meta_ext: "meta".to_string(),
        row_transpose_mark: "##transpose".to_string(),
        row_var_mark: "##var".to_string(),
        row_attr_mark: "##attr".to_string(),
        attrs: StrMap::new(),
        global_key_case: StrMap::new(),
        global_attr_by_key: StrMap::new(),
        specified_output: StrMap::new(),
        enums: StrMap::new(),
    }
}

fn result(name: &str, path: &str, rows: Vec<Json>) -> SheetResult {
    let mut r = SheetResult::new("book.xlsx", name, name);
    r.finish_sheet(ContentKinds::Json, path.to_string(), vec![], vec![], rows, vec![]);
    r
}

fn strings(v: &[&str]) -> Vec<String> {
    v.iter().map(|s| s.to_string()).collect()
}

#[test]
fn names_and_marks() {
    assert!(is_in_blacklist("#note"));
    assert!(is_in_blacklist("~tmp"));
    assert!(!is_in_blacklist("data"));
    assert!(!is_in_blacklist(""));
    assert!(is_in_whitelist("*"));
    assert!(!is_in_whitelist("**"));
    assert_eq!(remove_after("Items#copy", "#"), "Items");
    assert_eq!(remove_after("Items", "#"), "Items");
}

#[test]
fn transpose_pads_short_rows() {
    let rows = vec![strings(&["a", "b", "c"]), strings(&["d"])];
    assert_eq!(transpose_rows(&rows), vec![strings(&["a", "d"]), strings(&["b", ""]), strings(&["c", ""])]);
    assert_eq!(transpose_rows(&transpose_rows(&vec![strings(&["1", "2"]), strings(&["3", "4"])])), vec![
        strings(&["1", "2"]),
        strings(&["3", "4"])
    ]);
}

#[test]
fn results_written_to_one_path_are_merged_in_order() {
    let reports = vec![
        result("A", "out/x.json", vec![Json::Int(1)]),
        result("B", "out/y.json", vec![Json::Int(2)]),
        result("C", "out/x.json", vec![Json::Int(3), Json::Int(4)]),
    ];
    let (merged, messages) = merge_reports(reports);
    assert_eq!(merged.len(), 2);
    assert_eq!(merged[0].name, "A");
    assert_eq!(merged[0].rows.iter().map(show).collect::<Vec<_>>(), vec!["1", "3", "4"]);
    assert_eq!(merged[1].name, "B");
    assert_eq!(messages, vec!["> 🔄 合并: book.xlsx/A <-> book.xlsx/C".to_string()]);
}

#[test]
fn table_text_has_the_names_then_one_line_per_row() {
    let mut r = SheetResult::new("book.xlsx", "T", "T");
    r.finish_sheet(
        ContentKinds::Csv,
        "t.csv".to_string(),
        strings(&["a", "b"]),
        vec![],
        vec![Json::Str("1,2".to_string()), Json::Int(3)],
        strings(&["m1", "m2"]),
    );
    assert_eq!(table_text(&r), "a,b\n1,2\n");
    r.kind = ContentKinds::Txt;
    assert_eq!(table_text(&r), "a\tb\n1,2\n");
    assert_eq!(meta_text(&r), "book.xlsx/T\nm1\nm2");
    assert_eq!(unfinished_message(&r), "> ⚠️ 跳过未完成表格: book.xlsx/T");
}

#[test]
fn joining_strings() {
    assert_eq!(join_strings(&strings(&["a", "b", "c"]), ", "), "a, b, c");
    assert_eq!(join_strings(&vec![], ","), "");
}

#[test]
fn meta_file_beside_the_output() {
    assert_eq!(meta_path("out/items.json", "meta"), "out/~items.meta");
    assert_eq!(meta_path("items", "m"), "~items.m");
}

#[test]
fn gzip_round_trip() {
    let data = b"hello hello hello".to_vec();
    let z = gzip_compress(&data);
    assert_eq!(&z[..3], &[0x1f, 0x8b, 8]);
    assert_ne!(z, data);
    let mut out = Vec::new();
    flate2::read::GzDecoder::new(&z[..]).read_to_end(&mut out).unwrap();
    assert_eq!(out, data);
}

#[test]
fn output_is_compressed_only_in_release_with_gzip() {
    let release = config("release", "gzip");
    let debug = config("debug", "gzip");
    let plain = config("release", "none");
    assert!(should_compress(&release));
    assert!(!should_compress(&debug));
    assert!(!should_compress(&plain));
    assert_eq!(output_data(&debug, "abc"), b"abc".to_vec());
    assert_eq!(output_data(&release, "abc"), gzip_compress(b"abc"));
    assert!(should_write_meta(&debug));
    assert!(!should_write_meta(&release));
}

fn parse_float(s: &str) -> Option<Json> {
    s.parse::<f64>().ok().map(|f| Json::Float(f.to_string()))
}

#[test]
fn reading_a_sheet_gives_one_object_per_data_row() {
    let sheet = SheetContent {
        name: "Fruit".to_string(),
        rows: vec![
            strings(&["##var", "id", "name"]),
            strings(&["##attr", "type=number", ""]),
            strings(&["#", "编号", "名字"]),
            strings(&["", "1", "apple"]),
            strings(&["", "2", "pear"]),
        ],
    };
    let skipped = SheetContent { name: "#Notes".to_string(), rows: vec![] };
    let cfg = config("debug", "gzip");
    let (reports, messages) =
        read_excel("book.xlsx", &vec![sheet, skipped], "base", &cfg, &StrMap::new(), &StrMap::new(), &parse_float)
            .unwrap();
    assert_eq!(messages, vec!["> ⏩ 跳过: book.xlsx/#Notes".to_string()]);
    assert_eq!(reports.len(), 1);
    let r = &reports[0];
    assert!(r.is_finished);
    assert_eq!(r.kind, ContentKinds::Json);
    assert_eq!(r.output_path_string, "base/Fruit.json");
    assert_eq!(r.var_strings, strings(&["id", "name"]));
    assert_eq!(r.rows.iter().map(show).collect::<Vec<_>>(), vec![
        r#"{"id":1,"name":"apple"}"#,
        r#"{"id":2,"name":"pear"}"#
    ]);
}

#[test]
fn a_sheet_without_var_row_is_reported() {
    let sheet = SheetContent { name: "S".to_string(), rows: vec![strings(&["", "1"])] };
    let cfg = config("debug", "gzip");
    let (reports, _) =
        read_excel("b.xlsx", &vec![sheet], "base", &cfg, &StrMap::new(), &StrMap::new(), &parse_float).unwrap();
    assert_eq!(reports[0].warnings, vec!["b.xlsx/S: 未找到 var 行".to_string()]);
    assert!(!reports[0].is_finished);
}

#[test]
fn a_transposed_sheet_is_read_by_columns() {
    let sheet = SheetContent {
        name: "Cfg#note".to_string(),
        rows: vec![
            strings(&["##transpose", "##var", "##attr", ""]),
            strings(&["", "level", "type=number", "3"]),
            strings(&["", "name", "", "hero"]),
        ],
    };
    let cfg = config("debug", "gzip");
    let (reports, messages) =
        read_excel("b.xlsx", &vec![sheet], "base", &cfg, &StrMap::new(), &StrMap::new(), &parse_float).unwrap();
    assert!(messages.is_empty());
    let r = &reports[0];
    assert_eq!(r.name, "Cfg");
    assert_eq!(r.full_name_raw, "b.xlsx/Cfg#note");
    assert!(r.is_finished);
    assert_eq!(r.var_strings, strings(&["level", "name"]));
    assert_eq!(r.attr_strings, strings(&["type=number", ""]));
    assert_eq!(r.output_path_string, "base/Cfg.json");
    assert_eq!(r.rows.iter().map(show).collect::<Vec<_>>(), vec![r#"{"level":3,"name":"hero"}"#]);
}

#[test]
fn a_sheet_without_cells_gets_an_empty_result() {
    let sheet = SheetContent { name: "Empty".to_string(), rows: vec![vec![]] };
    let cfg = config("debug", "gzip");
    let (reports, _) =
        read_excel("b.xlsx", &vec![sheet], "base", &cfg, &StrMap::new(), &StrMap::new(), &parse_float).unwrap();
    assert_eq!(reports.len(), 1);
    assert!(!reports[0].is_finished);
    assert!(reports[0].warnings.is_empty());
}

#[test]
fn only_finished_results_are_written() {
    let a = result("A", "out/a.json", vec![]);
    let b = SheetResult::new("book.xlsx", "B", "B");
    let c = result("C", "out/c.json", vec![]);
    assert_eq!(sheets_to_write(&vec![a, b, c]), vec![0, 2]);
}

#[test]
fn json_is_pretty_except_in_release() {
    assert!(json_pretty(&config("debug", "gzip")));
    assert!(!json_pretty(&config("release", "gzip")));
}

#[test]
fn bytes_written_for_a_sheet() {
    let json = result("A", "out/a.json", vec![Json::Int(1)]);
    assert_eq!(sheet_bytes(&config("debug", "gzip"), &json, "[\n  1\n]"), b"[\n  1\n]".to_vec());
    assert_eq!(sheet_bytes(&config("release", "gzip"), &json, "[1]"), gzip_compress(b"[1]"));
    assert_eq!(sheet_bytes(&config("release", "none"), &json, "[1]"), b"[1]".to_vec());
    let mut txt = SheetResult::new("book.xlsx", "T", "T");
    txt.finish_sheet(ContentKinds::Txt, "out/t.txt".to_string(), vec!["id".to_string()], vec![], vec![Json::Str("1".to_string())], vec![]);
    assert_eq!(sheet_bytes(&config("debug", "gzip"), &txt, "ignored"), table_text(&txt).into_bytes());
}

#[test]
fn a_default_fills_an_empty_number_cell() {
    let sheet = SheetContent {
        name: "S".to_string(),
        rows: vec![
            strings(&["##var", "id", "name"]),
            strings(&["##attr", "type=number&default=7", ""]),
            strings(&["", "", "a"]),
        ],
    };
    let cfg = config("debug", "gzip");
    let (reports, _) =
        read_excel("t.xlsx", &vec![sheet], "base", &cfg, &StrMap::new(), &StrMap::new(), &parse_float).unwrap();
    assert_eq!(reports.len(), 1);
    assert_eq!(reports[0].full_name, "t.xlsx/S");
    assert_eq!(reports[0].var_strings, strings(&["id", "name"]));
    assert_eq!(reports[0].rows.iter().map(show).collect::<Vec<_>>(), vec![r#"{"id":7,"name":"a"}"#]);
}

#[test]
fn a_txt_sheet_gives_text_rows() {
    let hidden = SheetContent { name: "#hidden".to_string(), rows: vec![] };
    let tmp = SheetContent { name: "~tmp".to_string(), rows: vec![] };
    let sheet = SheetContent { name: "sheet1.txt#note".to_string(), rows: vec![strings(&["##var", "id"]), strings(&["", "1"])] };
    let cfg = config("debug", "gzip");
    let (reports, skipped) = read_excel("t.xlsx", &vec![hidden, tmp, sheet], "base", &cfg, &StrMap::new(), &StrMap::new(), &parse_float)
        .unwrap();
    assert_eq!(skipped.len(), 2);
    assert_eq!(reports.len(), 1);
    assert_eq!(reports[0].name, "sheet1.txt");
    assert_eq!(reports[0].full_name_raw, "t.xlsx/sheet1.txt#note");
    assert_eq!(reports[0].kind, ContentKinds::Txt);
    assert_eq!(reports[0].output_path, "base/sheet1.txt");
    assert_eq!(reports[0].rows.iter().map(show).collect::<Vec<_>>(), vec![r#""1""#]);
}

#[test]
fn a_cut_that_splits_a_character_fails() {
    let sheet = SheetContent {
        name: "S".to_string(),
        rows: vec![strings(&["##var", "a"]), strings(&["##attr", "cut=1"]), strings(&["", "中"])],
    };
    let cfg = config("debug", "gzip");
    assert!(read_excel("t.xlsx", &vec![sheet], "base", &cfg, &StrMap::new(), &StrMap::new(), &parse_float).is_err());
}

#[test]
fn an_unreadable_key_index_fails() {
    let sheet = SheetContent { name: "S".to_string(), rows: vec![strings(&["##var", "a[!]"]), strings(&["", "1"])] };
    let cfg = config("debug", "gzip");
    assert!(read_excel("t.xlsx", &vec![sheet], "base", &cfg, &StrMap::new(), &StrMap::new(), &parse_float).is_err());
}

#[test]
fn meta_lines_give_the_column_letter_and_the_row() {
    let sheet = SheetContent {
        name: "S".to_string(),
        rows: vec![
            strings(&["##var", "id", "name"]),
            strings(&["##attr", "type=number&default=7", ""]),
            strings(&["", "", "a"]),
        ],
    };
    let cfg = config("debug", "gzip");
    let (reports, _) =
        read_excel("t.xlsx", &vec![sheet], "base", &cfg, &StrMap::new(), &StrMap::new(), &parse_float).unwrap();
    assert_eq!(reports[0].meta, strings(&["$[0].id B:3", "$[0].name C:3"]));
}

#[test]
fn input_workbooks_are_xlsx_files_not_blacklisted() {
    assert!(is_input_workbook("items.xlsx"));
    assert!(!is_input_workbook("~$items.xlsx"));
    assert!(!is_input_workbook("#old.xlsx"));
    assert!(!is_input_workbook("items.xls"));
    assert!(!is_input_workbook("xlsx"));
    assert!(is_input_workbook(".xlsx"));
}
