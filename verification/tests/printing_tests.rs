use gitrends::printing::TablePrinter;

#[test]
fn rendered_table_holds_headers_and_cells() {
    let mut printer = TablePrinter::new(vec!["name".to_string(), "count".to_string()]);
    printer.add_row(vec!["alpha".to_string(), "3".to_string()]);
    printer.add_row(vec!["beta".to_string(), "14".to_string()]);
    let text = printer.print();
    assert!(text.ends_with('\n'));
    assert!(text.starts_with('-'));
    assert!(text.contains(" name "));
    assert!(text.contains(" count "));
    assert!(text.contains(" alpha "));
    assert!(text.contains(" beta "));
    assert!(text.contains('|'));
    assert!(text.contains('+'));
    assert_eq!(text.lines().count(), 5);
}

#[test]
fn empty_table_renders_header_block() {
    let printer = TablePrinter::new(vec!["only".to_string()]);
    let text = printer.print();
    assert!(text.ends_with('\n'));
    assert_eq!(text.lines().count(), 3);
}
