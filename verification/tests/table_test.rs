use gquest_core::table::{QueryTable, QueryTableOptions};

fn strings(v: &[&str]) -> Vec<String> {
    v.iter().map(|s| s.to_string()).collect()
}

#[test]
fn partial_table_keeps_first_and_last_rows_test() {
    let mode = QueryTableOptions::Partial { first_rows_count: 1, last_rows_count: 1 };
    let mut t = QueryTable::new(strings(&["a", "b"]), mode);
    for k in 0..4 {
        t.push_line(strings(&[&format!("x{k}"), &format!("y{k}")]));
    }
    assert_eq!(
        t.shown_rows(),
        vec![
            strings(&["i", "a", "b"]),
            strings(&["0", "x0", "y0"]),
            strings(&["...", "...", "..."]),
            strings(&["3", "x3", "y3"]),
        ]
    );
}

#[test]
fn partial_table_without_overflow_test() {
    let mode = QueryTableOptions::Partial { first_rows_count: 1, last_rows_count: 2 };
    let mut t = QueryTable::new(strings(&["a"]), mode);
    for k in 0..3 {
        t.push_line(strings(&[&format!("v{k}")]));
    }
    assert_eq!(
        t.shown_rows(),
        vec![strings(&["i", "a"]), strings(&["0", "v0"]), strings(&["1", "v1"]), strings(&["2", "v2"])]
    );
}

#[test]
fn full_table_keeps_all_rows_test() {
    let mut t = QueryTable::new(strings(&["a"]), QueryTableOptions::Full);
    for k in 0..5 {
        t.push_line(strings(&[&format!("v{k}")]));
    }
    let rows = t.shown_rows();
    assert_eq!(rows.len(), 6);
    assert_eq!(rows[5], strings(&["4", "v4"]));
}

#[test]
fn new_is_header_pushed_test() {
    let mut t1 = QueryTable::new(strings(&["a", "b"]), QueryTableOptions::Full);
    let mut t2 = QueryTable::new_no_header(QueryTableOptions::Full);
    t2.push_line(strings(&["a", "b"]));
    t1.push_line(strings(&["1", "2"]));
    t2.push_line(strings(&["1", "2"]));
    assert_eq!(t1.shown_rows(), t2.shown_rows());
    assert_eq!(t1.to_latex(), t2.to_latex());
    assert_eq!(t1.to_string(), t2.to_string());
}

#[test]
fn table_drawn_with_rounded_borders_test() {
    let mut t = QueryTable::new(strings(&["a", "b"]), QueryTableOptions::Full);
    t.push_line(strings(&["1", "2"]));
    let text = t.to_string();
    assert!(text.contains('╭'));
    assert!(text.contains('╯'));
    assert!(text.contains("│ i │ a │ b │"));
    assert!(text.contains("│ 0 │ 1 │ 2 │"));
}
