use expect_rewrite::diff::{diff_report, format_chunks, DiffChunk};
use expect_rewrite::expect::{Expect, FilePosition, LocateError};
use expect_rewrite::patchwork::{PatchOrdering, Patchwork};
use expect_rewrite::runtime::{format_patch, plan_update, FileRuntime, Runtime, UpdateError};
use expect_rewrite::str_lit_kind::StrLitKind;

fn at<const N: usize>(
    line: u32,
    column: u32,
    raw_actual: &'static str,
    expected: [&'static str; N],
    raw_expected: [&'static str; N],
    assertion_index: usize,
) -> Expect<N> {
    Expect {
        file_position: FilePosition { file: "src/sample.rs", line, column },
        raw_actual,
        expected,
        raw_expected,
        assertion_index,
    }
}

#[test]
fn literal_with_quote_and_hash_gets_two_hashes() {
    assert_eq!(format_patch(0, "say \"hi\"#"), "r##\"say \"hi\"#\"##");
}

#[test]
fn literal_with_backslash_is_raw() {
    assert_eq!(format_patch(0, "a\\b"), "r#\"a\\b\"#");
}

#[test]
fn plain_literal_is_quoted() {
    assert_eq!(format_patch(8, "abc"), "\"abc\"");
}

#[test]
fn leading_hashes_count_too() {
    let kind = StrLitKind::from("##\"x");
    assert_eq!(format!("{:?}", kind), "Raw(3)");
}

#[test]
fn style_depends_on_text_only() {
    let a = String::from("q\"#z");
    let b = "q\"#z".to_string();
    assert_eq!(StrLitKind::from(a.as_str()), StrLitKind::from(b.as_str()));
    assert_eq!(format_patch(2, &a), format_patch(2, &b));
}

#[test]
fn write_delimiters() {
    let mut s = String::from("x");
    StrLitKind::Raw(3).write_start(&mut s);
    s.push_str("body");
    StrLitKind::Raw(3).write_end(&mut s);
    assert_eq!(s, "xr###\"body\"###");
    let mut t = String::new();
    StrLitKind::Normal.write_start(&mut t);
    StrLitKind::Normal.write_end(&mut t);
    assert_eq!(t, "\"\"");
}

#[test]
fn multi_line_literal_keeps_blank_lines_unindented() {
    assert_eq!(format_patch(2, "a\n\n  b"), "r#\"\n      a\n\n        b\"#");
}

#[test]
fn crlf_line_endings_are_dropped() {
    assert_eq!(format_patch(0, "a\r\nb"), "r#\"\n    a\n    b\"#");
}

#[test]
fn edits_in_any_order_compose_the_same() {
    let mut p = Patchwork::new("one two three".to_string());
    p.patch_insert(13, "333", PatchOrdering::Normal);
    p.patch_range(8..13, "3", PatchOrdering::Normal);
    p.patch_range(0..3, "один", PatchOrdering::Normal);
    p.patch_range(4..7, "zwei", PatchOrdering::Normal);
    assert_eq!(p.text(), "один zwei 3333");
}

#[test]
fn equal_tiers_keep_call_order() {
    let mut p = Patchwork::new("ab".to_string());
    p.patch_insert(1, "x", PatchOrdering::Normal);
    p.patch_insert(1, "y", PatchOrdering::Normal);
    p.patch_insert(1, "<", PatchOrdering::BeforeOtherPatches);
    p.patch_insert(1, ">", PatchOrdering::AfterOtherPatches);
    assert_eq!(p.text(), "a<xy>b");
}

#[test]
fn patch_that_splits_a_character_does_not_fit() {
    let mut p = Patchwork::new("abcd".to_string());
    assert!(p.can_patch(&(0..2), "é", PatchOrdering::Normal));
    p.patch_range(0..2, "é", PatchOrdering::Normal);
    assert_eq!(p.text(), "écd");
    assert!(!p.can_patch(&(1..1), "x", PatchOrdering::Normal));
    assert!(p.can_patch(&(2..3), "x", PatchOrdering::Normal));
    assert!(!p.can_patch(&(3..2), "x", PatchOrdering::Normal));
}

#[test]
fn located_ranges_hold_the_literals() {
    let file = "fn t() {\n    check!(value,  \"one\",\n        \"two\");\n}\n";
    let e = at(2, 5, "value", ["one", "two"], ["\"one\"", "\"two\""], 0);
    let loc = e.find_expect_location(file).unwrap();
    assert_eq!(loc.expected_ranges.len(), 2);
    assert_eq!(&file[loc.expected_ranges[0].clone()], "\"one\"");
    assert_eq!(&file[loc.expected_ranges[1].clone()], "\"two\"");
    assert_eq!(loc.end_index, loc.expected_ranges[1].end);
    assert_eq!(&file[loc.start_index..loc.start_index + 5], "value");
    assert_eq!(loc.line_indent, 4);
}

#[test]
fn offsets_are_bytes() {
    let file = "// é\nx!(a, \"b\")\n";
    let e = at(2, 1, "a", ["b"], ["\"b\""], 0);
    let loc = e.find_expect_location(file).unwrap();
    assert_eq!(loc.start_index, 9);
    assert_eq!(loc.expected_ranges[0], 12..15);
}

#[test]
fn missing_line_is_reported() {
    let e = at(9, 1, "a", [], [], 0);
    assert_eq!(e.find_expect_location("x!(a)\n").unwrap_err(), LocateError::LineNotFound);
}

#[test]
fn missing_macro_is_reported() {
    let e = at(1, 1, "a", [], [], 0);
    assert_eq!(e.find_expect_location("x(a)\n").unwrap_err(), LocateError::MacroNotFound);
    assert_eq!(e.find_expect_location("x!").unwrap_err(), LocateError::MacroNotFound);
}

#[test]
fn missing_actual_is_reported() {
    let e = at(1, 1, "b", [], [], 0);
    assert_eq!(e.find_expect_location("x!(a)\n").unwrap_err(), LocateError::ActualNotFound);
}

#[test]
fn missing_expected_is_reported_with_its_index() {
    let e = at(1, 1, "a", ["5", "6"], ["\"5\"", "\"6\""], 0);
    assert_eq!(
        e.find_expect_location("x!(a, \"5\")\n").unwrap_err(),
        LocateError::ExpectedNotFound(1)
    );
}

#[test]
fn whitespace_in_the_actual_expression_is_tolerated() {
    let file = "x!(\n    f( 1,\n  2 ),\n \"3\")\n";
    let e = at(1, 1, "f(1, 2)", ["3"], ["\"3\""], 0);
    let loc = e.find_expect_location(file).unwrap();
    assert_eq!(loc.start_index, 8);
    assert_eq!(&file[loc.expected_ranges[0].clone()], "\"3\"");
}

#[test]
fn trimmed_removes_common_indentation() {
    let e = at(1, 1, "a", [], [], 0);
    assert_eq!(e.trimmed("\n    a\n      b\n    "), "a\n  b\n");
    assert_eq!(e.trimmed("one line"), "one line");
}

#[test]
fn mismatch_reports_the_expected_text() {
    let e = at(1, 1, "a", ["\n    x\n    y"], ["r#\"..\"#"], 0);
    assert_eq!(e.assert_eq("x\nz"), Err("x\ny".to_string()));
    assert_eq!(e.assert_eq("x\ny"), Ok(()));
    let later = at(1, 1, "a", ["x"], ["\"x\""], 1);
    assert_eq!(later.assert_eq("x"), Err(String::new()));
    assert_eq!(later.assert_debug_eq(1), Err(String::new()));
}

#[test]
fn single_line_first_literal_is_appended() {
    let file = "fn t() {\n    expect!(x);\n}\n";
    let mut rt = FileRuntime::new(file.to_string());
    let e = at(2, 5, "x", [], [], 0);
    assert_eq!(rt.update(&e, "5"), Ok(()));
    assert_eq!(rt.text(), "fn t() {\n    expect!(x, \"5\");\n}\n");
}

#[test]
fn multi_line_first_literal_makes_the_call_multi_line() {
    let file = "fn t() {\n    expect!(x);\n}\n";
    let mut rt = FileRuntime::new(file.to_string());
    let e = at(2, 5, "x", [], [], 0);
    assert_eq!(rt.update(&e, "a\nb"), Ok(()));
    assert_eq!(
        rt.text(),
        "fn t() {\n    expect!(\n        x,\n        r#\"\n        a\n        b\"#\n    );\n}\n"
    );
}

#[test]
fn existing_literals_are_replaced_and_later_ones_appended() {
    let file = "fn t() {\n    expect!(x, \"1\");\n}\n";
    let mut rt = FileRuntime::new(file.to_string());
    let first = at(2, 5, "x", ["1"], ["\"1\""], 0);
    let second = at(2, 5, "x", ["1"], ["\"1\""], 1);
    assert_eq!(rt.update(&first, "7"), Ok(()));
    assert_eq!(rt.update(&second, "8"), Ok(()));
    assert_eq!(rt.text(), "fn t() {\n    expect!(x, \"7\", \"8\");\n}\n");
}

#[test]
fn update_of_unlocatable_call_changes_nothing() {
    let file = "fn t() {}\n";
    let mut rt = FileRuntime::new(file.to_string());
    let e = at(1, 1, "x", [], [], 0);
    assert_eq!(rt.update(&e, "5"), Err(UpdateError::Locate(LocateError::MacroNotFound)));
    assert_eq!(rt.text(), file);
}

#[test]
fn overlapping_update_is_refused() {
    let file = "x!(a, \"b\")\n";
    let mut rt = FileRuntime::new(file.to_string());
    let whole = at(1, 1, "a", ["b"], ["\"b\""], 0);
    assert_eq!(rt.update(&whole, "é"), Ok(()));
    assert_eq!(rt.text(), "x!(a, \"é\")\n");
    let inner = at(1, 1, "a", ["b"], ["b\""], 0);
    assert_eq!(rt.update(&inner, "z"), Err(UpdateError::Overlap));
    assert_eq!(rt.text(), "x!(a, \"é\")\n");
}

#[test]
fn plan_for_a_second_multi_line_literal() {
    let file = "x!(a, \"b\")\n";
    let e = at(1, 1, "a", ["b"], ["\"b\""], 1);
    let loc = e.find_expect_location(file).unwrap();
    let plan = plan_update(&loc, 1, "p\nq");
    assert_eq!(plan.len(), 1);
    assert_eq!(plan[0].range, 9..9);
    assert_eq!(plan[0].text, ",\n    r#\"\n    p\n    q\"#");
    assert_eq!(plan[0].ordering, PatchOrdering::Normal);
}

#[test]
fn runtime_keeps_one_session_per_file() {
    let mut rt = Runtime::new();
    assert!(rt.take_help());
    assert!(!rt.take_help());
    assert_eq!(rt.file_index("a.rs"), None);
    let i = rt.add_file("a.rs", "x!(a)\n".to_string());
    let j = rt.add_file("b.rs", "y!(b)\n".to_string());
    assert_eq!(rt.file_index("a.rs"), Some(i));
    assert_eq!(rt.file_index("b.rs"), Some(j));
    let e = at(1, 1, "a", [], [], 0);
    assert_eq!(rt.update_file(i, &e, "1"), Ok(()));
    assert_eq!(rt.file_text(i), "x!(a, \"1\")\n");
    assert_eq!(rt.file_text(j), "y!(b)\n");
}

#[test]
fn diff_report_marks_deleted_and_inserted_text() {
    assert_eq!(
        diff_report("abc", "abd"),
        "ab\x1b[4m\x1b[31mc\x1b[0m\x1b[4m\x1b[32md\x1b[0m"
    );
    assert_eq!(diff_report("same", "same"), "same");
}

#[test]
fn chunks_render_with_their_styles() {
    let chunks = vec![
        DiffChunk::Equal("a".to_string()),
        DiffChunk::Insert("b".to_string()),
        DiffChunk::Delete("c".to_string()),
    ];
    assert_eq!(format_chunks(chunks), "a\x1b[4m\x1b[32mb\x1b[0m\x1b[4m\x1b[31mc\x1b[0m");
}

#[test]
fn multi_line_literal_reads_back_as_its_payload() {
    let e = at(1, 1, "a", [], [], 0);
    for (indent, payload) in [
        (4, "fn a() {\n    b\n}\n"),
        (0, "x\n\n  y"),
        (2, "\"q\"#\n r"),
    ] {
        let lit = format_patch(indent, payload);
        let open = lit.find('"').unwrap() + 1;
        let close = lit.rfind('"').unwrap();
        assert_eq!(e.trimmed(&lit[open..close]), payload);
    }
}

#[test]
fn shared_indentation_does_not_read_back() {
    let e = at(1, 1, "a", [], [], 0);
    let lit = format_patch(0, "  a\n  b");
    assert_eq!(e.trimmed(&lit[3..lit.len() - 2]), "a\nb");
}

#[test]
fn indentation_is_counted_in_bytes() {
    let e = at(1, 1, "a", [], [], 0);
    let text = "\n\u{3000}\u{3000}a\n   b";
    assert!(e.can_trim(text));
    assert_eq!(e.trimmed(text), "\u{3000}a\nb");
}

#[test]
fn cut_inside_a_character_is_not_readable() {
    let e = at(1, 1, "a", ["\n\u{3000}a\n b"], ["r#\"..\"#"], 0);
    assert!(!e.can_trim("\n\u{3000}a\n b"));
    assert!(!e.can_read());
    let fine = at(1, 1, "a", ["x"], ["\"x\""], 0);
    assert!(fine.can_read());
}
