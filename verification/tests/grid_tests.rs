use rust365::docx::{CellData, RowData};
use rust365::docx_run::{append_fill, list_tag_of, type_attr_of};
use rust365::grid::append_table_html;

fn cell(html: &str, css: &str, colspan: i32, vmerge: i32) -> CellData {
    CellData { html: html.to_string(), css: css.to_string(), colspan, vmerge }
}

fn row(cells: Vec<CellData>, header: bool) -> RowData {
    RowData { cells, header }
}

#[test]
fn table_without_merges() {
    let rows = vec![
        row(vec![cell("a", "", 1, 0), cell("b", "color:red;", 1, 0)], true),
        row(vec![cell("c", "", 2, 0)], false),
    ];
    let mut out = String::from("x");
    append_table_html(&mut out, &rows);
    assert_eq!(
        out,
        "x<table><tr><th>a</th><th style=\"color:red;\">b</th></tr><tr><td colspan=\"2\">c</td></tr></table>"
    );
}

#[test]
fn vertical_merge_spans_rows_and_drops_continuations() {
    let rows = vec![
        row(vec![cell("a", "", 1, 1), cell("b", "", 1, 0)], false),
        row(vec![cell("", "", 1, 2), cell("c", "", 1, 0)], false),
        row(vec![cell("", "", 1, 2), cell("d", "", 1, 0)], false),
        row(vec![cell("e", "", 1, 0), cell("f", "", 1, 0)], false),
    ];
    let mut out = String::new();
    append_table_html(&mut out, &rows);
    assert_eq!(
        out,
        "<table><tr><td rowspan=\"3\">a</td><td>b</td></tr><tr><td>c</td></tr><tr><td>d</td></tr>\
         <tr><td>e</td><td>f</td></tr></table>"
    );
}

#[test]
fn merge_stops_at_a_row_without_continuation() {
    // the continuation in the third row is not below the merge start: it stays a cell
    let rows = vec![
        row(vec![cell("a", "", 1, 1)], false),
        row(vec![cell("b", "", 1, 0)], false),
        row(vec![cell("c", "", 1, 2)], false),
    ];
    let mut out = String::new();
    append_table_html(&mut out, &rows);
    assert_eq!(out, "<table><tr><td>a</td></tr><tr><td>b</td></tr><tr><td>c</td></tr></table>");
}

#[test]
fn merge_matches_by_column_start() {
    // the merge starts at column 2 (after a two-column cell); only the continuation that starts
    // there joins it
    let rows = vec![
        row(vec![cell("w", "", 2, 0), cell("m", "", 1, 1)], false),
        row(vec![cell("", "", 1, 2), cell("x", "", 1, 0), cell("", "", 1, 2)], false),
    ];
    let mut out = String::new();
    append_table_html(&mut out, &rows);
    assert_eq!(
        out,
        "<table><tr><td colspan=\"2\">w</td><td rowspan=\"2\">m</td></tr><tr><td></td><td>x</td></tr></table>"
    );
}

#[test]
fn empty_table() {
    let mut out = String::new();
    append_table_html(&mut out, &Vec::new());
    assert_eq!(out, "<table></table>");
}

#[test]
fn list_tags_and_number_formats() {
    assert_eq!(list_tag_of("bullet"), "ul");
    assert_eq!(list_tag_of("none"), "ul");
    assert_eq!(list_tag_of("decimal"), "ol");
    assert_eq!(type_attr_of("lowerLetter"), " type=\"a\"");
    assert_eq!(type_attr_of("upperRoman"), " type=\"I\"");
    assert_eq!(type_attr_of("none"), " style=\"list-style:none\"");
    assert_eq!(type_attr_of("decimal"), "");
}

#[test]
fn fill_colors_become_backgrounds() {
    let mut css = String::new();
    append_fill(&mut css, "FF0000");
    assert_eq!(css, "background-color:#FF0000;");
    append_fill(&mut css, "auto");
    append_fill(&mut css, "");
    assert_eq!(css, "background-color:#FF0000;");
}
