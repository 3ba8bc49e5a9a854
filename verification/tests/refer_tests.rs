use excel_tool::refer::{
    area_message, check_refer_target, entries_out, col_index, col_letter, collect_values, done_message, overwrite_confirmed,
    parse_cell_ref, parse_col_spec, parse_row_spec, parse_single_cell_ref, plan_fits_exec, plan_refer,
    refer_skip_message, refer_title, target_has_data, temp_path_for, used_range, write_plan, ReferArgs, ReferError,
    SheetGrid,
};
use excel_tool::sheet_xml::CellValue;

fn args(from_columns: Option<&str>, to_columns: Option<&str>, from_rows: Option<&str>, to_rows: Option<&str>) -> ReferArgs {
    ReferArgs {
        from: "src.xlsx".to_string(),
        to: "dst.xlsx".to_string(),
        from_sheet: "S".to_string(),
        to_sheet: "T".to_string(),
        from_columns: from_columns.map(|s| s.to_string()),
        to_columns: to_columns.map(|s| s.to_string()),
        from_rows: from_rows.map(|s| s.to_string()),
        to_rows: to_rows.map(|s| s.to_string()),
        force: false,
    }
}

fn text_of(v: &CellValue) -> String {
    match v {
        CellValue::Str(s) => format!("s:{s}"),
        CellValue::Num(s) => format!("n:{s}"),
        CellValue::Int(i) => format!("i:{i}"),
        CellValue::Bool(b) => format!("b:{b}"),
        CellValue::Error(e) => format!("e:{e}"),
        CellValue::Empty => "empty".to_string(),
    }
}

#[test]
fn column_letters_and_numbers() {
    assert_eq!(col_index("A"), Some(1));
    assert_eq!(col_index(" aa "), Some(27));
    assert_eq!(col_index("A1"), None);
    assert_eq!(col_index(""), None);
    assert_eq!(col_letter(1), "A");
    assert_eq!(col_letter(26), "Z");
    assert_eq!(col_letter(28), "AB");
    assert_eq!(col_letter(0), "");
}

#[test]
fn column_letters_read_back_as_their_number() {
    for n in 1..2000usize {
        assert_eq!(col_index(&col_letter(n)), Some(n));
    }
}

#[test]
fn column_ranges() {
    let c = parse_col_spec("B:D").ok().unwrap();
    assert_eq!((c.start, c.end), (2, Some(4)));
    let c = parse_col_spec(" C ").ok().unwrap();
    assert_eq!((c.start, c.end), (3, None));
    assert_eq!(parse_col_spec("D:B").err().unwrap().message(), "列范围起点大于终点: D:B");
    assert_eq!(parse_col_spec("A:B:C").err().unwrap().message(), "列范围格式不正确: A:B:C (应为 A 或 A:C)");
    assert_eq!(parse_col_spec("A:").err().unwrap().message(), "列范围格式不正确: A: (应为 A 或 A:C)");
    assert_eq!(parse_col_spec("1").err().unwrap().message(), "无效列: 1");
}

#[test]
fn row_ranges() {
    let r = parse_row_spec("2:10").ok().unwrap();
    assert_eq!((r.start, r.end), (2, Some(10)));
    assert_eq!(parse_row_spec("x").err().unwrap().message(), "无效行号: x");
    assert_eq!(parse_row_spec("5:2").err().unwrap().message(), "行范围起点大于终点: 5:2");
    assert_eq!(parse_row_spec("").err().unwrap().message(), "行范围格式不正确:  (应为 2 或 2:10)");
}

#[test]
fn cell_references() {
    assert_eq!(parse_single_cell_ref("B7").ok(), Some((7, 2)));
    assert_eq!(parse_cell_ref("C5:A1").ok(), Some((1, 1, 5, 3)));
    assert_eq!(parse_cell_ref("B2").ok(), Some((2, 2, 2, 2)));
    assert!(matches!(parse_cell_ref("  "), Err(ReferError::EmptyCellRef)));
    assert_eq!(parse_cell_ref("A1:B2:C3").err().unwrap().message(), "非法单元格引用: A1:B2:C3");
    assert_eq!(parse_single_cell_ref("AB").err().unwrap().message(), "非法单元格引用: AB");
    assert_eq!(parse_single_cell_ref("1A").err().unwrap().message(), "非法列字母: ");
    assert_eq!(parse_single_cell_ref("A1x").err().unwrap().message(), "非法行号: 1x");
}

#[test]
fn skip_when_a_source_range_has_no_target() {
    assert_eq!(
        refer_skip_message(&args(Some("A:B"), None, None, None)).unwrap(),
        "> ⚠️ 指定了 --from-columns 但没有 --to-columns, 跳过引用操作"
    );
    assert_eq!(
        refer_skip_message(&args(None, None, Some("2"), None)).unwrap(),
        "> ⚠️ 指定了 --from-rows 但没有 --to-rows, 跳过引用操作"
    );
    assert!(refer_skip_message(&args(Some("A"), Some("B"), None, None)).is_none());
    assert_eq!(refer_title(&args(None, None, None, None)), "> 📎 引用: src.xlsx#S -> dst.xlsx#T");
}

#[test]
fn only_xlsx_and_xlsm_targets() {
    assert!(check_refer_target("out/book.XLSX").is_ok());
    assert!(check_refer_target("book.xlsm").is_ok());
    assert_eq!(
        check_refer_target("book.xls").unwrap_err(),
        "> ❌ 引用写入目前仅支持 .xlsx/.xlsm 目标文件, 当前: book.xls"
    );
    assert!(check_refer_target("book").is_err());
}

#[test]
fn plan_takes_missing_ends_from_the_used_range() {
    let a = args(Some("B"), Some("D"), Some("3"), Some("10"));
    let used = (2, 1, 6, 4);
    assert!(plan_fits_exec(&a, used));
    let p = plan_refer(&a, used).unwrap();
    assert_eq!((p.col_start, p.col_end, p.row_start, p.row_end), (2, 4, 3, 6));
    assert_eq!((p.to_col, p.to_row, p.width, p.height), (4, 10, 3, 4));
    assert_eq!(area_message(&p), "> 📐 源区域: B3:D6 (3x4), 写入目标起始: D10");
    let a = args(None, None, None, None);
    let p = plan_refer(&a, used).unwrap();
    assert_eq!((p.col_start, p.col_end, p.row_start, p.row_end, p.to_col, p.to_row), (1, 4, 2, 6, 1, 1));
    assert_eq!(done_message(&p, &a), "> ✅ 引用完成: 5 行 x 4 列 已写入 dst.xlsx#T (起始 A1)");
}

#[test]
fn plan_reports_range_errors() {
    let a = args(Some("C:A"), Some("A"), None, None);
    assert_eq!(plan_refer(&a, (1, 1, 1, 1)).err().unwrap(), "列范围起点大于终点: C:A");
    let a = args(None, None, Some("x"), Some("1"));
    assert_eq!(plan_refer(&a, (1, 1, 1, 1)).err().unwrap(), "无效行号: x");
    let a = args(None, None, None, Some("0"));
    assert!(!plan_fits_exec(&a, (1, 1, 1, 1)));
}

#[test]
fn end_before_start_gives_width_one() {
    let a = args(Some("C"), Some("A"), None, None);
    let p = plan_refer(&a, (1, 1, 2, 2)).unwrap();
    assert_eq!((p.col_start, p.col_end, p.width), (3, 2, 1));
}

fn grid() -> SheetGrid {
    SheetGrid {
        start: Some((1, 1)),
        end: Some((2, 2)),
        rows: vec![
            vec![CellValue::Str("b2".to_string()), CellValue::Empty],
            vec![CellValue::Int(7), CellValue::Bool(true)],
        ],
    }
}

#[test]
fn used_range_counts_from_one() {
    assert_eq!(used_range(&grid()), Some((2, 2, 3, 3)));
    let empty = SheetGrid { start: None, end: None, rows: vec![] };
    assert_eq!(used_range(&empty), None);
}

#[test]
fn values_of_the_source_rectangle() {
    let a = args(Some("A"), Some("A"), Some("1"), Some("1"));
    let p = plan_refer(&a, (2, 2, 3, 3)).unwrap();
    let v = collect_values(&grid(), &p);
    let texts: Vec<Vec<String>> = v.iter().map(|r| r.iter().map(text_of).collect()).collect();
    assert_eq!(
        texts,
        vec![
            vec!["empty", "empty", "empty"],
            vec!["empty", "s:b2", "empty"],
            vec!["empty", "i:7", "b:true"],
        ]
    );
}

#[test]
fn data_in_the_target_rectangle() {
    let a = args(None, Some("A"), None, Some("1"));
    let p = plan_refer(&a, (1, 1, 1, 1)).unwrap();
    assert!(!target_has_data(&grid(), &p));
    let a = args(None, Some("B"), None, Some("2"));
    let p = plan_refer(&a, (1, 1, 1, 1)).unwrap();
    assert!(target_has_data(&grid(), &p));
    let a = args(None, Some("C"), None, Some("2"));
    let p = plan_refer(&a, (1, 1, 1, 1)).unwrap();
    assert!(!target_has_data(&grid(), &p));
}

#[test]
fn write_plan_places_values_at_the_target() {
    let a = args(None, Some("C"), None, Some("4"));
    let p = plan_refer(&a, (1, 1, 2, 3)).unwrap();
    let (g, rect) = write_plan(&p, vec![vec![CellValue::Int(1)]]);
    assert_eq!((g.top, g.left), (4, 3));
    assert_eq!(rect, (4, 3, 5, 5));
    assert_eq!(text_of(g.get(4, 3).unwrap()), "i:1");
    assert!(g.get(4, 4).is_none());
    assert!(g.get(3, 3).is_none());
}

#[test]
fn overwrite_answer() {
    assert!(overwrite_confirmed(" Y \n"));
    assert!(overwrite_confirmed("y"));
    assert!(!overwrite_confirmed("yes"));
    assert!(!overwrite_confirmed(""));
}

#[test]
fn temporary_file_beside_the_target() {
    assert_eq!(temp_path_for("/a/b/c.xlsx"), "/a/b/.c.xlsx.refer.tmp");
    assert_eq!(temp_path_for("c.xlsx"), ".c.xlsx.refer.tmp");
}

#[test]
fn only_the_sheet_part_gets_new_bytes() {
    let entries = vec![
        ("xl/workbook.xml".to_string(), b"<workbook/>".to_vec()),
        ("xl/worksheets/sheet1.xml".to_string(), b"<old/>".to_vec()),
        ("xl/styles.xml".to_string(), vec![0u8, 159, 146, 150]),
    ];
    let out = entries_out(&entries, "xl/worksheets/sheet1.xml", "<新/>");
    assert_eq!(out.len(), 3);
    assert_eq!(out[0], b"<workbook/>".to_vec());
    assert_eq!(out[1], "<新/>".as_bytes().to_vec());
    assert_eq!(out[2], vec![0u8, 159, 146, 150]);
}

#[test]
fn target_cells_get_the_source_values() {
    let a = args(Some("B:C"), Some("E"), Some("2:3"), Some("10"));
    let p = plan_refer(&a, (2, 2, 3, 3)).unwrap();
    let v = collect_values(&grid(), &p);
    let (g, rect) = write_plan(&p, v);
    assert_eq!(rect, (10, 5, 11, 6));
    assert_eq!(text_of(g.get(10, 5).unwrap()), "s:b2");
    assert_eq!(text_of(g.get(10, 6).unwrap()), "empty");
    assert_eq!(text_of(g.get(11, 5).unwrap()), "i:7");
    assert_eq!(text_of(g.get(11, 6).unwrap()), "b:true");
    assert!(g.get(12, 5).is_none());
}
