use gitrends::stats::calculate_source_code_stats;

fn rust_fixture() -> String {
    let lines = [
        "// comment",
        "fn main() {",
        "    let x = 1;",
        "",
        "    if x > 0 {",
        "        return;",
        "    }",
        "}",
        "",
        "/* block",
        "   still block */",
        "// tail",
        "",
        "struct S;",
        "\t\tlet y;",
        " ",
    ];
    lines.join("\n")
}

fn python_fixture() -> String {
    let lines = [
        "# header",
        "def f():",
        "    x = 1",
        "",
        "    if x:",
        "        return",
        "",
        "print(1)",
        "",
        "        pass",
        " ",
    ];
    lines.join("\n")
}

#[test]
fn test_source_stats_rust() {
    let content = rust_fixture();
    let stats = calculate_source_code_stats("rs", &content);

    assert_eq!(
        stats.num_code_lines + stats.num_comment_lines + stats.num_blank_lines,
        16
    );
    assert_eq!(stats.num_code_lines, 8);
    assert_eq!(stats.num_comment_lines, 4);
    assert_eq!(stats.num_blank_lines, 4);
    assert_eq!(stats.total_indent_levels, 7);
}

#[test]
fn test_source_stats_python() {
    let content = python_fixture();
    let stats = calculate_source_code_stats("py", &content);

    assert_eq!(
        stats.num_code_lines + stats.num_comment_lines + stats.num_blank_lines,
        11
    );
    assert_eq!(stats.num_code_lines, 6);
    assert_eq!(stats.num_comment_lines, 1);
    assert_eq!(stats.num_blank_lines, 4);
    assert_eq!(stats.total_indent_levels, 6);
}

#[test]
fn all_code_lines_count_as_physical_lines() {
    // no comments and no blanks: the code count is the number of physical lines
    let stats = calculate_source_code_stats("rs", "a();\nb();\nc();");
    assert_eq!(stats.num_code_lines, 3);
    assert_eq!(stats.num_comment_lines, 0);
    assert_eq!(stats.num_blank_lines, 0);
    // all indentation levels are zero exactly when the sums are zero
    assert_eq!(stats.total_indent_levels, 0);
    assert_eq!(stats.square_indent_levels, 0);

    let indented = calculate_source_code_stats("rs", "a();\n    b();");
    assert_eq!(indented.num_code_lines, 2);
    assert!(indented.total_indent_levels > 0);
}

#[test]
fn blank_line_inside_block_comment_counts_twice() {
    let stats = calculate_source_code_stats("rs", "/* start\n \nend */");
    assert_eq!(stats.num_code_lines, 0);
    assert_eq!(stats.num_comment_lines, 3);
    assert_eq!(stats.num_blank_lines, 1);
}

#[test]
fn empty_text_has_no_lines() {
    let stats = calculate_source_code_stats("rs", "");
    assert_eq!(stats.num_code_lines, 0);
    assert_eq!(stats.num_comment_lines, 0);
    assert_eq!(stats.num_blank_lines, 0);
    assert_eq!(stats.total_indent_levels, 0);
}

#[test]
fn python_hint_changes_the_marker() {
    // '#' starts a comment only under the python hint
    let py = calculate_source_code_stats("py", "# note\ncode()");
    assert_eq!(py.num_comment_lines, 1);
    assert_eq!(py.num_code_lines, 1);

    let rs = calculate_source_code_stats("rs", "# note\ncode()");
    assert_eq!(rs.num_comment_lines, 0);
    assert_eq!(rs.num_code_lines, 2);
}

#[test]
fn bare_marker_without_text_is_code() {
    // the single-line marker needs at least one character after it
    let stats = calculate_source_code_stats("py", "#");
    assert_eq!(stats.num_code_lines, 1);
    assert_eq!(stats.num_comment_lines, 0);
}

#[test]
fn indentation_dispersion_inputs() {
    // two code lines at levels 1 and 2: sum 3, squares 5
    let stats = calculate_source_code_stats("rs", "    a();\n        b();");
    assert_eq!(stats.total_indent_levels, 3);
    assert_eq!(stats.square_indent_levels, 5);
    let avg = stats.total_indent_levels as f64 / stats.num_code_lines as f64;
    assert!(avg > 1.49 && avg < 1.51);
}

#[test]
fn unicode_whitespace_makes_a_line_blank() {
    // a no-break space line is blank, as the whitespace class is Unicode
    let stats = calculate_source_code_stats("rs", "\u{a0}\u{a0}\ncode();");
    assert_eq!(stats.num_blank_lines, 1);
    assert_eq!(stats.num_code_lines, 1);
    // and a comment marker after such whitespace is still a comment
    let commented = calculate_source_code_stats("rs", "\u{a0}// note x");
    assert_eq!(commented.num_comment_lines, 1);
}
