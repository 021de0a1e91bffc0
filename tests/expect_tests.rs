use expect_rewrite::expect::{Expect, FilePosition};
use expect_rewrite::patchwork::{PatchOrdering, Patchwork};
use expect_rewrite::runtime::format_patch;
use expect_rewrite::str_lit_kind::StrLitKind;

fn quoted(content: &str) -> &'static str {
    Box::leak(format!("\"{}\"", content).into_boxed_str())
}

fn raw(content: &str) -> &'static str {
    Box::leak(format!("r#\"{}\"#", content).into_boxed_str())
}

fn assertion<const N: usize>(
    raw_actual: &'static str,
    expected: [&'static str; N],
    raw_expected: [&'static str; N],
    assertion_index: usize,
) -> Expect<N> {
    Expect {
        file_position: FilePosition { file: "tests/expect_tests.rs", line: 1, column: 1 },
        raw_actual,
        expected,
        raw_expected,
        assertion_index,
    }
}

/// A literal actual value compared as text.
fn check_text(raw_actual: &'static str, actual: &str, expected: &'static str, raw_expected: &'static str) {
    let e = assertion(raw_actual, [expected], [raw_expected], 0);
    assert_eq!(e.assert_eq(actual), Ok(()));
}

/// An expression compared through its pretty `Debug` text.
fn check_debug<T: std::fmt::Debug>(raw_actual: &'static str, actual: T, expected: &'static str, raw_expected: &'static str) {
    let e = assertion(raw_actual, [expected], [raw_expected], 0);
    assert_eq!(e.assert_debug_eq(actual), Ok(()));
}

#[test]
fn test_trivial_assert_empty_literal() {
    check_text("\"\"", "", "", quoted(""));
}

#[test]
fn test_trivial_assert_literal() {
    check_text("\"ABC\"", "ABC", "ABC", quoted("ABC"));
}

#[test]
fn test_trivial_assert_literal_multiline() {
    let lit = "\n        ABC\n        DEF";
    check_text("\"ABC\\nDEF\"", "ABC\nDEF", lit, raw(lit));
}

#[test]
fn test_trivial_assert_literal_multiline2() {
    let lit = "\n        ABC\n        DEF\n        ";
    check_text("\"ABC\\nDEF\\n\"", "ABC\nDEF\n", lit, raw(lit));
}

#[test]
fn test_trivial_assert_expression() {
    check_debug("&5", &5, "5", quoted("5"));
}

#[test]
fn test_trivial_assert_expression2() {
    let x = 5;
    check_debug("x", x, "5", quoted("5"));
}

#[test]
fn test_vec() {
    let v = vec![1];
    let lit = "\n        [\n            1,\n        ]";
    check_debug("v", v, lit, raw(lit));
}

#[test]
fn test_spacing_assert() {
    check_text("\"\\n\"", "\n", "\n\n", raw("\n\n"));
    check_text("\" \\n\"", " \n", "\n \n", raw("\n \n"));
    check_text("\"\\n \"", "\n ", "\n\n ", raw("\n\n "));
    check_text(
        "\"\n                \"",
        "\n                ",
        "\n\n                ",
        raw("\n\n                "),
    );
}

#[test]
fn test_lit_kind_for_patch_empty() {
    check_debug("StrLitKind::from(\"\")", StrLitKind::from(""), "Normal", quoted("Normal"));
}

#[test]
fn test_lit_kind_for_patch_normal() {
    check_debug("StrLitKind::from(\"ABCDEFG\")", StrLitKind::from("ABCDEFG"), "Normal", quoted("Normal"));
    check_debug(
        "StrLitKind::from(\"single line\")",
        StrLitKind::from("single line"),
        "Normal",
        quoted("Normal"),
    );
}

const RAW_ONE: &str = "\n        Raw(\n            1,\n        )";

#[test]
fn test_lit_kind_for_patch_new_lines() {
    check_debug(
        "StrLitKind::from(\"hello\\nworld\\n\")",
        StrLitKind::from("hello\nworld\n"),
        RAW_ONE,
        raw(RAW_ONE),
    );
}

#[test]
fn test_lit_kind_for_patch_tabs() {
    check_debug(
        "StrLitKind::from(r\"hello\\tworld\")",
        StrLitKind::from(r"hello\tworld"),
        RAW_ONE,
        raw(RAW_ONE),
    );
}

#[test]
fn test_lit_kind_for_patch_double_quotes() {
    check_debug(
        "StrLitKind::from(\"{\\\"foo\\\": 42}\")",
        StrLitKind::from("{\"foo\": 42}"),
        RAW_ONE,
        raw(RAW_ONE),
    );
}

#[test]
fn test_lit_kind_for_patch_double_quote_hash() {
    let lit = "\n        Raw(\n            2,\n        )";
    check_debug("StrLitKind::from(\"\\\"#\\\"\")", StrLitKind::from("\"#\""), lit, raw(lit));
}

#[test]
fn test_lit_kind_for_patch_double_quote_triple_hash() {
    let lit = "\n        Raw(\n            4,\n        )";
    check_debug("StrLitKind::from(\"\\\"###\\\"\")", StrLitKind::from("\"###\""), lit, raw(lit));
}

#[test]
fn test_format_patch_multi_line() {
    let patch = format_patch(0, "hello\nworld\n");
    let lit = "\"r#\\\"\\n    hello\\n    world\\n    \\\"#\"";
    check_debug("&patch", &patch, lit, lit);
}

#[test]
fn test_format_patch_multi_line2() {
    let desired_indent = 4;
    let patch = "struct Test {\n    field_a: u32,\n    field_b: f64,\n    field_c: String,\n}\n";
    let patch = format_patch(desired_indent, patch);
    let lit = "\"r#\\\"\\n        struct Test {\\n            field_a: u32,\\n            field_b: f64,\\n            field_c: String,\\n        }\\n        \\\"#\"";
    check_debug("patch", patch, lit, lit);
}

#[test]
fn test_format_patch_single_line() {
    let patch = format_patch(0, "single line");
    let lit = "\"\\\"single line\\\"\"";
    check_debug("&patch", &patch, lit, lit);
}

#[test]
fn test_patchwork() {
    let mut patchwork = Patchwork::new("one two three".to_string());
    patchwork.patch_range(4..7, "zwei", PatchOrdering::Normal);
    patchwork.patch_range(0..3, "один", PatchOrdering::Normal);
    patchwork.patch_range(8..13, "3", PatchOrdering::Normal);
    patchwork.patch_insert(13, "333", PatchOrdering::Normal);
    let lit = r#"
        Patchwork {
            text: "один zwei 3333",
            patches: [
                Patch {
                    deletion_range: 0..3,
                    insertion_size: 8,
                    ordering: Normal,
                },
                Patch {
                    deletion_range: 4..7,
                    insertion_size: 4,
                    ordering: Normal,
                },
                Patch {
                    deletion_range: 8..13,
                    insertion_size: 1,
                    ordering: Normal,
                },
                Patch {
                    deletion_range: 13..13,
                    insertion_size: 3,
                    ordering: Normal,
                },
            ],
        }"#;
    check_debug("&patchwork", &patchwork, lit, raw(lit));
}

#[test]
pub fn test_multi_expect() {
    let tuple_0 = "\n            (\n                0,\n                0,\n            )";
    let tuple_1 = "\n            (\n                1,\n                1,\n            )";
    for i in 0..2 {
        let j = i..i + 1;
        let z = (i, i);
        let first = assertion("j", ["0..1", "1..2"], [quoted("0..1"), quoted("1..2")], i);
        assert_eq!(first.assert_debug_eq(j), Ok(()));
        let second = assertion("z", [tuple_0, tuple_1], [raw(tuple_0), raw(tuple_1)], i);
        assert_eq!(second.assert_debug_eq(z), Ok(()));
    }
}

#[test]
pub fn test_patch_ordering() {
    let mut patchwork = Patchwork::new("one two three".to_string());
    patchwork.patch_insert(13, "555", PatchOrdering::AfterOtherPatches);
    patchwork.patch_insert(13, "33", PatchOrdering::Normal);
    patchwork.patch_insert(13, "4", PatchOrdering::Normal);
    patchwork.patch_insert(13, "2", PatchOrdering::BeforeOtherPatches);
    let lit = "\"one two three2334555\"";
    check_debug("patchwork.text()", patchwork.text(), lit, raw(lit));
}

#[test]
pub fn test_find_expect_location() {
    let expect = Expect {
        file_position: FilePosition { file: "src/tests2.rs", line: 7, column: 5 },
        raw_actual: "StrLitKind::from(\"\")",
        expected: ["ABC", "DEF"],
        raw_expected: ["\"ABC\"", "\"DEF\""],
        assertion_index: 0,
    };
    let file = "use crate::str_lit_kind::StrLitKind;\n\nuse super::*;\n\n#[test]\nfn test_lit_kind_for_patch_empty() {\n    expect!(StrLitKind::from(\"\"), \"ABC\", \"DEF\");\n}\n";
    let location = expect.find_expect_location(file).unwrap();
    let lit = r#"
        ExpectLocation {
            line_indent: 4,
            expected_ranges: [
                132..137,
                139..144,
            ],
            start_index: 110,
            end_index: 144,
        }"#;
    check_debug("location", location, lit, raw(lit));
}

#[test]
pub fn test_find_expect_location_stringify() {
    let expect = Expect {
        file_position: FilePosition { file: "src/tests3.rs", line: 5, column: 5 },
        raw_actual: "stringify!(struct Test { test : u32, })",
        expected: ["test", "test2"],
        raw_expected: ["\"test\"", "\"test2\""],
        assertion_index: 0,
    };
    let file = "use super::*;\n\n#[test]\nfn test_stringify() {\n    expect!(\n        stringify!(\n            struct Test {\n                test: u32,\n            }\n        ),\n        \"test\",\n        \"test2\"\n    );\n}\n";
    let location = expect.find_expect_location(file).unwrap();
    let lit = r#"
        ExpectLocation {
            line_indent: 4,
            expected_ranges: [
                164..170,
                180..187,
            ],
            start_index: 66,
            end_index: 187,
        }"#;
    check_debug("location", location, lit, raw(lit));
}

fn fibonacci(x: usize) -> usize {
    let mut z = vec![];
    z.push(0);
    z.push(1);
    for i in 2..=x {
        z.push(z[i - 1] + z[i - 2]);
    }
    z[x]
}

#[test]
pub fn test_fibonacci() {
    check_debug("fibonacci(15)", fibonacci(15), "610", quoted("610"));
}

fn some_complicated_io_func(callback: impl Fn(i32)) {
    callback(5);
    callback(3);
    callback(10);
}

#[test]
pub fn test_callback_expect() {
    let counter = std::cell::Cell::new(0usize);
    some_complicated_io_func(|status_value| {
        let index = counter.get();
        counter.set(index + 1);
        let e = assertion(
            "status_value",
            ["5", "3", "10"],
            [quoted("5"), quoted("3"), quoted("10")],
            index,
        );
        assert_eq!(e.assert_debug_eq(status_value), Ok(()));
    })
}

#[test]
pub fn test_expect_macro_output() {
    // the value that `test!()` expands to
    let value = 5;
    check_debug("test!()", value, "5", quoted("5"));
}

#[test]
pub fn test_expect_macro_output2() {
    let lit = "\"1 + 1\"";
    check_debug("stringify!(1 + 1)", "1 + 1", lit, raw(lit));
}

#[test]
pub fn test_expect_multiline_macro() {
    let lit = "\"struct Test { field : u32, }\"";
    check_debug(
        "stringify!(struct Test { field : u32, })",
        "struct Test { field : u32, }",
        lit,
        raw(lit),
    );
}

fn five() -> u32 {
    5
}

#[test]
pub fn test_expect_multiline_no_macro() {
    check_debug("{ fn test() -> u32 { 5 } test() }", five(), "5", quoted("5"));
}

#[test]
pub fn test_expect_tuple() {
    let lit = "\n        (\n            2,\n            3,\n        )";
    check_debug("(2, 3)", (2, 3), lit, raw(lit));
}

#[test]
pub fn test_expect_layered_tuple() {
    let lit = "\n        (\n            (\n                3,\n                4,\n            ),\n            5,\n        )";
    check_debug("((3, 4), 5)", ((3, 4), 5), lit, raw(lit));
}
