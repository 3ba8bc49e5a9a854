use excel_tool::refer::rewrite_entries;
use excel_tool::sheet_xml::{
    build_cell_events, find_sheet_part, modify_sheet_xml, try_modify_sheet_xml, CellValue, WriteGrid,
};

const SHEET: &str = r#"<?xml version="1.0" encoding="UTF-8" standalone="yes"?><worksheet xmlns="x"><dimension ref="A1:B2"/><sheetData><row r="1"><c r="A1" s="3"><v>1</v></c><c r="B1"><v>2</v></c></row><row r="2"><c r="A2"><v>3</v></c></row></sheetData><pageMargins left="0.7"/></worksheet>"#;

const WORKBOOK: &str = r#"<workbook><sheets><sheet name="First" sheetId="1" r:id="rId1"/><sheet name="Data" sheetId="2" r:id="rId2"/></sheets></workbook>"#;
const RELS: &str = r#"<Relationships><Relationship Id="rId1" Type="t" Target="worksheets/sheet1.xml"/><Relationship Id="rId2" Type="t" Target="/xl/worksheets/sheet2.xml"/></Relationships>"#;

fn grid(top: usize, left: usize, values: Vec<Vec<CellValue>>) -> WriteGrid {
    WriteGrid { top, left, values }
}

#[test]
fn sheet_part_from_workbook_and_relationships() {
    assert_eq!(find_sheet_part(WORKBOOK.as_bytes(), RELS.as_bytes(), "First").unwrap(), "xl/worksheets/sheet1.xml");
    assert_eq!(find_sheet_part(WORKBOOK.as_bytes(), RELS.as_bytes(), "Data").unwrap(), "xl/worksheets/sheet2.xml");
    assert_eq!(
        find_sheet_part(WORKBOOK.as_bytes(), RELS.as_bytes(), "Nope").unwrap_err(),
        "在 workbook.xml 中找不到 sheet: Nope"
    );
    let rels = r#"<Relationships><Relationship Id="rId9" Target="a.xml"/></Relationships>"#;
    assert_eq!(find_sheet_part(WORKBOOK.as_bytes(), rels.as_bytes(), "Data").unwrap_err(), "rels 中找不到 Id: rId2");
}

#[test]
fn sheet_name_attribute_is_unescaped() {
    let wb = r#"<workbook><sheet name="A&amp;B" r:id="rId1"/></workbook>"#;
    assert_eq!(find_sheet_part(wb.as_bytes(), RELS.as_bytes(), "A&B").unwrap(), "xl/worksheets/sheet1.xml");
    let bad = r#"<workbook><sheet name="A&zzz;B" r:id="rId1"/></workbook>"#;
    assert!(find_sheet_part(bad.as_bytes(), RELS.as_bytes(), "A").unwrap_err().starts_with("属性转义解析失败: "));
}

#[test]
fn cell_events_of_each_kind_of_value() {
    assert_eq!(
        build_cell_events("B2", Some("4"), &CellValue::Str("a<b".to_string())),
        vec![r#"<c r="B2" s="4" t="inlineStr">"#, "<is>", "<t>", "a&lt;b", "</t>", "</is>", "</c>"]
    );
    assert_eq!(
        build_cell_events("C3", None, &CellValue::Int(-12)),
        vec![r#"<c r="C3">"#, "<v>", "-12", "</v>", "</c>"]
    );
    assert_eq!(
        build_cell_events("C3", None, &CellValue::Bool(true)),
        vec![r#"<c r="C3" t="b">"#, "<v>", "1", "</v>", "</c>"]
    );
    assert_eq!(
        build_cell_events("C3", None, &CellValue::Error("#N/A".to_string())),
        vec![r#"<c r="C3" t="e">"#, "<v>", "#N/A", "</v>", "</c>"]
    );
    assert_eq!(build_cell_events("D1", Some("2"), &CellValue::Empty), vec![r#"<c r="D1" s="2"/>"#]);
    assert_eq!(
        build_cell_events("D1", None, &CellValue::Num("1.5".to_string())),
        vec![r#"<c r="D1">"#, "<v>", "1.5", "</v>", "</c>"]
    );
}

#[test]
fn writing_into_an_existing_row_adds_the_cell_in_column_order() {
    let g = grid(2, 2, vec![vec![CellValue::Str("x".to_string())]]);
    let out = modify_sheet_xml(SHEET.as_bytes(), &g, 2, 2, 2, 2).unwrap();
    let expected = r#"<?xml version="1.0" encoding="UTF-8" standalone="yes"?><worksheet xmlns="x"><dimension ref="A1:B2"/><sheetData><row r="1"><c r="A1" s="3"><v>1</v></c><c r="B1"><v>2</v></c></row><row r="2"><c r="A2"><v>3</v></c><c r="B2" t="inlineStr"><is><t>x</t></is></c></row></sheetData><pageMargins left="0.7"/></worksheet>"#;
    assert_eq!(out, expected);
}

#[test]
fn writing_replaces_a_cell_and_keeps_its_style() {
    let g = grid(1, 1, vec![vec![CellValue::Int(9)]]);
    let out = modify_sheet_xml(SHEET.as_bytes(), &g, 1, 1, 1, 1).unwrap();
    assert!(out.contains(r#"<row r="1"><c r="A1" s="3"><v>9</v></c><c r="B1"><v>2</v></c></row>"#));
}

#[test]
fn writing_an_empty_value_clears_an_existing_cell() {
    let g = grid(1, 2, vec![vec![CellValue::Empty]]);
    let out = modify_sheet_xml(SHEET.as_bytes(), &g, 1, 2, 1, 2).unwrap();
    assert!(out.contains(r#"<row r="1"><c r="A1" s="3"><v>1</v></c><c r="B1"/></row>"#));
}

#[test]
fn writing_below_the_sheet_adds_a_row_and_grows_the_dimension() {
    let g = grid(3, 1, vec![vec![CellValue::Int(5)]]);
    let out = modify_sheet_xml(SHEET.as_bytes(), &g, 3, 1, 3, 1).unwrap();
    let expected = r#"<?xml version="1.0" encoding="UTF-8" standalone="yes"?><worksheet xmlns="x"><dimension ref="A1:B3"/><sheetData><row r="1"><c r="A1" s="3"><v>1</v></c><c r="B1"><v>2</v></c></row><row r="2"><c r="A2"><v>3</v></c></row><row r="3"><c r="A3"><v>5</v></c></row></sheetData><pageMargins left="0.7"/></worksheet>"#;
    assert_eq!(out, expected);
}

#[test]
fn no_values_leaves_the_sheet_as_it_was() {
    let g = grid(5, 5, vec![]);
    let out = modify_sheet_xml(SHEET.as_bytes(), &g, 7, 5, 7, 5).unwrap();
    assert_eq!(out, SHEET.replace(r#"<dimension ref="A1:B2"/>"#, r#"<dimension ref="A1:E7"/>"#));
}

#[test]
fn empty_sheet_data_is_opened() {
    let xml = r#"<worksheet><sheetData/></worksheet>"#;
    let g = grid(1, 1, vec![vec![CellValue::Bool(false)]]);
    let out = modify_sheet_xml(xml.as_bytes(), &g, 1, 1, 1, 1).unwrap();
    assert_eq!(out, r#"<worksheet><sheetData><row r="1"><c r="A1" t="b"><v>0</v></c></row></sheetData></worksheet>"#);
}

#[test]
fn sheet_errors() {
    let g = grid(1, 1, vec![]);
    assert_eq!(modify_sheet_xml(b"<worksheet></worksheet>", &g, 1, 1, 1, 1).unwrap_err(), "sheet XML 缺少 sheetData");
    assert_eq!(
        modify_sheet_xml(b"<worksheet><sheetData>", &g, 1, 1, 1, 1).unwrap_err(),
        "sheet XML 缺少 </sheetData>"
    );
    assert_eq!(
        modify_sheet_xml(br#"<w><sheetData><row r="x"/></sheetData></w>"#, &g, 1, 1, 1, 1).unwrap_err(),
        "非法行号: x"
    );
    assert!(modify_sheet_xml(b"<a></b>", &g, 1, 1, 1, 1).unwrap_err().starts_with("解析 sheet XML 失败: "));
}

#[test]
fn an_empty_row_among_the_target_rows_is_not_rewritten() {
    let xml = r#"<w><sheetData><row r="2"/></sheetData></w>"#;
    let g = grid(2, 1, vec![vec![CellValue::Int(1)]]);
    assert!(try_modify_sheet_xml(xml.as_bytes(), &g, 2, 1, 2, 1).is_none());
    let out = try_modify_sheet_xml(xml.as_bytes(), &g, 3, 1, 3, 1).unwrap().unwrap();
    assert_eq!(out, xml);
}

#[test]
fn workbook_entries_are_found_and_the_sheet_rewritten() {
    let entries = vec![
        ("xl/workbook.xml".to_string(), WORKBOOK.as_bytes().to_vec()),
        ("xl/_rels/workbook.xml.rels".to_string(), RELS.as_bytes().to_vec()),
        ("xl/worksheets/sheet2.xml".to_string(), SHEET.as_bytes().to_vec()),
    ];
    let g = grid(1, 1, vec![vec![CellValue::Int(9)]]);
    let (part, xml) = rewrite_entries(&entries, "Data", &g, 1, 1, 1, 1).unwrap().unwrap();
    assert_eq!(part, "xl/worksheets/sheet2.xml");
    assert!(xml.contains(r#"<c r="A1" s="3"><v>9</v></c>"#));
    assert_eq!(rewrite_entries(&entries, "First", &g, 1, 1, 1, 1).unwrap().unwrap_err(), "xlsx 缺少条目: xl/worksheets/sheet1.xml");
    assert_eq!(rewrite_entries(&entries[1..].to_vec(), "Data", &g, 1, 1, 1, 1).unwrap().unwrap_err(), "xlsx 缺少 xl/workbook.xml");
}

#[test]
fn text_and_attribute_escapes() {
    assert_eq!(
        build_cell_events("A1", Some("x\"y"), &CellValue::Str("'&>\r\n".to_string())),
        vec![r#"<c r="A1" s="x&quot;y" t="inlineStr">"#, "<is>", "<t>", "&apos;&amp;&gt;&#13;\n", "</t>", "</is>", "</c>"]
    );
}

#[test]
fn events_outside_sheet_data_and_cells_outside_the_columns_are_kept() {
    let xml = r#"<w><sheetPr/><dimension ref="A1:C1"/><cols/><sheetData><row r="1" spans="1:3"><c r="A1"><v>1</v></c><c r="B1"><v>2</v></c><c r="C1" s="5"><v>3</v></c></row></sheetData><tail a="1"/></w>"#;
    let g = grid(1, 2, vec![vec![CellValue::Int(7)]]);
    let out = modify_sheet_xml(xml.as_bytes(), &g, 1, 2, 1, 2).unwrap();
    assert!(out.starts_with("<w><sheetPr/>"));
    assert!(out.ends_with(r#"</sheetData><tail a="1"/></w>"#));
    assert!(out.contains(r#"<c r="A1"><v>1</v></c><c r="B1"><v>7</v></c><c r="C1" s="5"><v>3</v></c>"#));
}

#[test]
fn rows_outside_the_target_rows_are_written_back_as_they_were() {
    let xml = r#"<w><sheetData><row r="1" ht="20"><c r="A1"><v>1</v></c></row><row r="2"><c r="A2"><v>2</v></c></row><row r="5" spans="1:1"><c r="A5" s="1"><v>5</v></c></row></sheetData></w>"#;
    let g = grid(2, 1, vec![vec![CellValue::Int(9)]]);
    let out = modify_sheet_xml(xml.as_bytes(), &g, 2, 1, 2, 1).unwrap();
    assert!(out.contains(r#"<row r="1" ht="20"><c r="A1"><v>1</v></c></row>"#));
    assert!(out.contains(r#"<row r="5" spans="1:1"><c r="A5" s="1"><v>5</v></c></row>"#));
    assert!(out.contains(r#"<c r="A2"><v>9</v></c>"#));
}
