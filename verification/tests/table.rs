use cdc_dedup::sim::ReportRow;
use cdc_dedup::table::{
    render_report_row, report_formatter, usize_to_string, Column, TableFormatter,
};

#[test]
fn numbers_in_decimal() {
    assert_eq!(usize_to_string(0), "0");
    assert_eq!(usize_to_string(7), "7");
    assert_eq!(usize_to_string(10), "10");
    assert_eq!(usize_to_string(40960), "40960");
    assert_eq!(usize_to_string(1002003), "1002003");
}

#[test]
fn report_header_layout() {
    let fmt = report_formatter();
    let header = fmt.header();
    let expected = format!("   #    text   bytes   cumul    uniq  collides\n{}", "=".repeat(46));
    assert_eq!(header, expected);
}

#[test]
fn report_row_layout() {
    let fmt = report_formatter();
    let row = ReportRow {
        step: 1,
        text_len: 23,
        bytes_estimate: 456,
        total_bytes: 7890,
        unique_chunks: 2,
        collisions: 0,
    };
    let line = render_report_row(&fmt, &row).unwrap();
    assert_eq!(line, "   1      23     456    7890       2         0");
}

#[test]
fn row_cells_right_aligned_and_not_truncated() {
    let fmt = TableFormatter::new(vec![
        Column { label: "a".to_string(), width: 3 },
        Column { label: "b".to_string(), width: 5 },
    ]);
    let line = fmt.row().add("x").add("toolong").finish();
    assert_eq!(line, "  xtoolong");
}

#[test]
fn header_rule_spans_all_columns() {
    let fmt = TableFormatter::new(vec![
        Column { label: "n".to_string(), width: 2 },
        Column { label: "m".to_string(), width: 4 },
    ]);
    assert_eq!(fmt.header(), " n   m\n======");
}
