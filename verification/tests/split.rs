use phew::formatter::split::{
    append_ternary_value, build_split, expand_bare_array, expand_bare_sub_array,
    expand_brace_block, expand_inline_closure, expand_nested_array, find_array_arrow,
    find_brace_block, find_closure_body, find_matching_close, find_ternary_positions,
    normalize_closure_body, try_split_long_line,
};

fn lines_fit(text: &str) -> bool {
    text.lines().all(|line| line.len() <= 120)
}

#[test]
fn closing_bracket_is_matched() {
    let chars: Vec<char> = "(a[b]) c".chars().collect();
    assert_eq!(find_matching_close(&chars, 0), Some(5));
    assert_eq!(find_matching_close(&chars, 2), Some(4));
    let chars: Vec<char> = "(a ')' b".chars().collect();
    assert_eq!(find_matching_close(&chars, 0), None);
}

#[test]
fn conditional_expression_is_found() {
    assert_eq!(find_ternary_positions("$a ? $b : $c"), Some((3, 8)));
    assert_eq!(find_ternary_positions("A::b ? c::d : e"), Some((5, 12)));
    assert_eq!(find_ternary_positions("$a ?? $b"), None);
    assert_eq!(find_ternary_positions("$a ?: $b"), None);
    assert_eq!(find_ternary_positions("f($a ? 1 : 2)"), None);
    assert_eq!(find_ternary_positions("'?' . $a ?> : x"), None);
}

#[test]
fn closure_and_block_are_found() {
    assert_eq!(find_closure_body("function () { x; }"), Some((12, 17)));
    assert_eq!(find_closure_body("myfunction () { x; }"), None);
    assert_eq!(find_closure_body("function"), None);
    assert_eq!(find_brace_block("'{' {a}"), Some((4, 6)));
    assert_eq!(find_brace_block("{ open"), None);
    assert_eq!(find_array_arrow("'k' => 1"), Some((3, 1)));
    assert_eq!(find_array_arrow("'a=>b'"), None);
    assert_eq!(find_array_arrow("$k=>1"), Some((0, 2)));
}

#[test]
fn closure_body_is_cut_into_statements() {
    assert_eq!(
        normalize_closure_body(" $a = 1; if ($b) { c(); } return f(';'); "),
        vec!["$a = 1;", "if ($b) { c(); }", "return f(';');"]
    );
    assert_eq!(normalize_closure_body("  "), Vec::<String>::new());
}

#[test]
fn line_that_fits_is_not_split() {
    assert_eq!(try_split_long_line("foo($a, $b)", "    "), None);
    let fits = "x".repeat(116);
    assert_eq!(try_split_long_line(&fits, "    "), None);
    let wide = "x".repeat(117);
    assert_eq!(try_split_long_line(&wide, "    "), None);
}

#[test]
fn wide_call_is_split_at_its_arguments() {
    let a = "a".repeat(60);
    let b = "b".repeat(60);
    let line = format!("foo(${a}, ${b});");
    let expected = format!("  foo(\n      ${a},\n      ${b},\n  );\n");
    let split = try_split_long_line(&line, "  ").unwrap();
    assert_eq!(split, expected);
    assert!(lines_fit(&split));
}

#[test]
fn wide_conditional_is_split_at_its_marks() {
    let a = "a".repeat(60);
    let b = "b".repeat(60);
    let line = format!("$x = ${a} ? ${b} : $c;");
    let expected = format!("$x = ${a}\n    ? ${b}\n    : $c;\n");
    assert_eq!(try_split_long_line(&line, ""), Some(expected));
}

#[test]
fn wide_list_argument_is_split_at_its_items() {
    let a = "a".repeat(60);
    let b = "b".repeat(60);
    let line = format!("foo(['{a}', '{b}'])");
    let expected = format!("foo([\n    '{a}',\n    '{b}',\n])\n");
    assert_eq!(try_split_long_line(&line, ""), Some(expected));
}

#[test]
fn wide_keyed_list_is_split_under_its_key() {
    let a = "a".repeat(60);
    let b = "b".repeat(60);
    let line = format!("'items' => [f('{a}'), '{b}']");
    let expected = format!("'items' => [\n    f('{a}'),\n    '{b}',\n],\n");
    assert_eq!(try_split_long_line(&line, ""), Some(expected));
    let line = format!("'items' => ['{a}', '{b}']");
    let expected = format!("'items' => [\n    '{a}',\n    '{b}',\n],\n");
    assert_eq!(try_split_long_line(&line, ""), Some(expected));
    let line = format!("f('items' => ['{a}', '{b}']");
    let expected = format!("f('items' => [\n    '{a}',\n    '{b}',\n],\n");
    assert_eq!(try_split_long_line(&line, ""), Some(expected));
}

#[test]
fn wide_line_without_a_place_to_split_stays() {
    let wide = "x".repeat(130);
    assert_eq!(try_split_long_line(&wide, ""), None);
    let wide = format!("f('{}'", "x".repeat(130));
    assert_eq!(try_split_long_line(&wide, ""), None);
}

#[test]
fn nested_arguments_go_one_level_deeper_each() {
    let a = "a".repeat(50);
    let b = "b".repeat(50);
    let c = "c".repeat(50);
    let line = format!("foo(bar(${a}, ${b}, ${c}), $d)");
    let expected = format!(
        "foo(\n    bar(\n        ${a},\n        ${b},\n        ${c},\n    ),\n    $d,\n)\n"
    );
    assert_eq!(try_split_long_line(&line, ""), Some(expected));
}

#[test]
fn ternary_value_is_appended() {
    let mut out = String::from("x\n");
    append_ternary_value(&mut out, '?', "$a", "  ");
    assert_eq!(out, "x\n  ? $a\n");
    let a = "a".repeat(60);
    let b = "b".repeat(60);
    let mut out = String::new();
    append_ternary_value(&mut out, ':', &format!("f(${a}, ${b})"), "  ");
    assert_eq!(out, format!("  : f(\n      ${a},\n      ${b},\n  )\n"));
}

#[test]
fn call_is_built_from_its_parts() {
    let args = vec!["a".to_string(), "b".to_string()];
    assert_eq!(build_split("f(", &args, ")", "  "), "  f(\n      a,\n      b,\n  )\n");
}

#[test]
fn lists_are_written_out() {
    assert_eq!(
        expand_bare_array(" [1, [2, 3], 4] ", "  "),
        Some("  [\n      1,\n      [\n          2,\n          3,\n      ],\n      4,\n  ],\n".to_string())
    );
    assert_eq!(expand_bare_array("[1]", ""), None);
    assert_eq!(expand_bare_array("[]", ""), None);
    assert_eq!(expand_bare_array("f(1, 2)", ""), None);
    assert_eq!(
        expand_bare_sub_array("[1, 2]", ""),
        Some("[\n    1,\n    2,\n],\n".to_string())
    );
    assert_eq!(expand_bare_sub_array("[1]", ""), None);
    assert_eq!(expand_bare_sub_array(" [1, 2]", ""), None);
    assert_eq!(
        expand_nested_array("'k' => ['a' => 1, 'b' => [2, 3]]", "  "),
        Some(
            "  'k' => [\n      'a' => 1,\n      'b' => [2, 3],\n  ],\n".to_string()
        )
    );
    assert_eq!(
        expand_nested_array("'k' => [[1, 2], 3]", ""),
        Some("'k' => [\n    [\n        1,\n        2,\n    ],\n    3,\n],\n".to_string())
    );
    assert_eq!(expand_nested_array("'k' => [1]", ""), None);
    assert_eq!(expand_nested_array("'k' => 1", ""), None);
    assert_eq!(expand_nested_array("k", ""), None);
}

#[test]
fn single_wide_item_is_wrapped() {
    let a = "a".repeat(60);
    let b = "b".repeat(60);
    let arg = format!("[f(${a}, ${b})]");
    let expected = format!("[\n    f(\n        ${a},\n        ${b},\n    ),\n],\n");
    assert_eq!(expand_bare_array(&arg, ""), Some(expected));
}

#[test]
fn closures_and_blocks_are_written_out() {
    assert_eq!(
        expand_inline_closure("function ($m) { $a = 1; return $a; }", "  "),
        Some("  function ($m) {\n      $a = 1;\n      return $a;\n  },\n".to_string())
    );
    assert_eq!(
        expand_inline_closure("'value' => function () { a(); if ($b) { c(); } })", ""),
        Some(
            "'value' => function () {\n    a();\n    if ($b) {\n        c();\n    }\n})\n"
                .to_string()
        )
    );
    assert_eq!(expand_inline_closure("function () { return 1; }", ""), None);
    assert_eq!(
        expand_brace_block("if ($a) { b(); } else", ""),
        Some("if ($a) {\n    b();\n} else\n".to_string())
    );
    assert_eq!(expand_brace_block("if ($a) { }", ""), None);
    assert_eq!(expand_brace_block("no block", ""), None);
}

#[test]
fn line_is_split_from_the_first_column_past_the_limit() {
    let a = "a".repeat(56);
    let b = "b".repeat(56);
    let line = format!("f(${a}, ${b})");
    assert_eq!(line.len(), 119);
    assert_eq!(try_split_long_line(&line, " "), None);
    let split = try_split_long_line(&line, "  ").unwrap();
    assert_eq!(split, format!("  f(\n      ${a},\n      ${b},\n  )\n"));
    assert!(lines_fit(&split));
}

#[test]
fn width_is_counted_in_bytes() {
    let a = "\u{e9}".repeat(30);
    let b = "b".repeat(55);
    let line = format!("f('{a}', '{b}')");
    assert_eq!(line.chars().count(), 94);
    assert_eq!(line.len(), 124);
    assert_eq!(
        try_split_long_line(&line, ""),
        Some(format!("f(\n    '{a}',\n    '{b}',\n)\n"))
    );
}

#[test]
fn wide_condition_is_split_in_turn() {
    let a = "a".repeat(60);
    let b = "b".repeat(60);
    let line = format!("foo(${a}, ${b}) ? $x : $y");
    let expected = format!("foo(\n    ${a},\n    ${b},\n)\n    ? $x\n    : $y\n");
    let split = try_split_long_line(&line, "").unwrap();
    assert_eq!(split, expected);
    assert!(lines_fit(&split));
}

#[test]
fn wide_rest_behind_the_arguments_is_split_in_turn() {
    let a = "a".repeat(60);
    let b = "b".repeat(60);
    let line = format!("f($x, $y)->g(${a}, ${b})");
    let expected = format!("f(\n    $x,\n    $y,\n)->g(\n    ${a},\n    ${b},\n)\n");
    let split = try_split_long_line(&line, "").unwrap();
    assert_eq!(split, expected);
    assert!(lines_fit(&split));
}

#[test]
fn wide_key_of_a_keyed_list_is_split() {
    let a = "a".repeat(60);
    let b = "b".repeat(60);
    let line = format!("h(g(${a}, ${b}) => [1, 2], $x)");
    let expected = format!(
        "h(\n    g(\n        ${a},\n        ${b},\n    ) => [\n        1,\n        2,\n    ],\n    $x,\n)\n"
    );
    let split = try_split_long_line(&line, "").unwrap();
    assert_eq!(split, expected);
    assert!(lines_fit(&split));
    assert_eq!(
        expand_nested_array("g($a, $b) => [1, 2]", "  "),
        Some("  g($a, $b) => [\n      1,\n      2,\n  ],\n".to_string())
    );
}

#[test]
fn wide_header_of_a_closure_is_split() {
    let a = "a".repeat(60);
    let b = "b".repeat(60);
    let arg = format!("function (${a}, ${b}) use ($x) {{ a(); b(); }}");
    let expected =
        format!("function (\n    ${a},\n    ${b},\n) use ($x) {{\n    a();\n    b();\n}},\n");
    let split = expand_inline_closure(&arg, "").unwrap();
    assert_eq!(split, expected);
    assert!(lines_fit(&split));
}

#[test]
fn wide_header_of_a_block_is_split() {
    let a = "a".repeat(60);
    let b = "b".repeat(60);
    let stmt = format!("function f(${a}, ${b}) {{ a(); }}");
    let expected = format!("function f(\n    ${a},\n    ${b},\n) {{\n    a();\n}}\n");
    let split = expand_brace_block(&stmt, "").unwrap();
    assert_eq!(split, expected);
    assert!(lines_fit(&split));
    let stmt = format!("if (f(${a}, ${b})) {{ a(); }}");
    let expected = format!("if (f(${a}, ${b})) {{\n    a();\n}}\n");
    assert_eq!(expand_brace_block(&stmt, ""), Some(expected));
}

#[test]
fn wide_line_behind_a_block_is_split() {
    let a = "a".repeat(60);
    let b = "b".repeat(60);
    let stmt = format!("if ($c) {{ a(); }} g(${a}, ${b});");
    let expected = format!("if ($c) {{\n    a();\n}} g(\n    ${a},\n    ${b},\n);\n");
    let split = expand_brace_block(&stmt, "").unwrap();
    assert_eq!(split, expected);
    assert!(lines_fit(&split));
    let arg = format!("function () {{ a(); b(); }}, g(${a}, ${b}))");
    let expected = format!("function () {{\n    a();\n    b();\n}}, g(\n    ${a},\n    ${b},\n))\n");
    let split = expand_inline_closure(&arg, "").unwrap();
    assert_eq!(split, expected);
    assert!(lines_fit(&split));
}

#[test]
fn wide_item_of_a_list_is_split() {
    let a = "a".repeat(60);
    let b = "b".repeat(60);
    let arg = format!("[f(${a}, ${b}), 2]");
    let expected = format!("[\n    f(\n        ${a},\n        ${b},\n    ),\n    2,\n],\n");
    let split = expand_bare_array(&arg, "").unwrap();
    assert_eq!(split, expected);
    assert!(lines_fit(&split));
    let arg = format!("[[1, ['{a}', '{b}']], 2]");
    let expected = format!(
        "[\n    [\n        1,\n        [\n            '{a}',\n            '{b}',\n        ],\n    ],\n    2,\n],\n"
    );
    let split = expand_bare_array(&arg, "").unwrap();
    assert_eq!(split, expected);
    assert!(lines_fit(&split));
    assert_eq!(
        expand_bare_array("[[1, [3, 4]], 2]", ""),
        Some("[\n    [\n        1,\n        [3, 4],\n    ],\n    2,\n],\n".to_string())
    );
}

#[test]
fn keyed_list_alone_in_a_list_gets_one_comma() {
    let a = "a".repeat(60);
    let b = "b".repeat(60);
    let arg = format!("['k' => ['{a}', '{b}']]");
    let expected = format!("[\n    'k' => [\n        '{a}',\n        '{b}',\n    ],\n],\n");
    assert_eq!(expand_bare_array(&arg, ""), Some(expected));
}

#[test]
fn wide_item_of_a_list_in_a_list_is_split() {
    let a = "a".repeat(60);
    let b = "b".repeat(60);
    let arg = format!("[[f(${a}, ${b}), 1], 2]");
    let expected = format!(
        "[\n    [\n        f(\n            ${a},\n            ${b},\n        ),\n        1,\n    ],\n    2,\n],\n"
    );
    let split = expand_bare_array(&arg, "").unwrap();
    assert_eq!(split, expected);
    assert!(lines_fit(&split));
}

#[test]
fn keyed_list_in_a_conditional_is_split_under_its_key() {
    let a = "a".repeat(60);
    let b = "b".repeat(60);
    let line = format!("$c ? 'k' => ['{a}', '{b}'] : 0");
    let expected = format!("$c\n    ? 'k' => [\n        '{a}',\n        '{b}',\n    ],\n    : 0\n");
    let split = try_split_long_line(&line, "").unwrap();
    assert_eq!(split, expected);
    assert!(lines_fit(&split));
}

#[test]
fn positions_count_bytes() {
    assert_eq!(find_ternary_positions("'\u{e9}' ? 1 : 2"), Some((5, 9)));
    assert_eq!(find_array_arrow("'\u{e9}\u{e9}' \u{e9}=> 1"), Some((6, 3)));
}

#[test]
fn comma_behind_the_last_line_is_counted() {
    let d = "d".repeat(104);
    let item = format!("f($a, $b) . g($c, ${d})");
    assert_eq!(format!("    ) . g($c, ${d})").len(), 120);
    let line = format!("h({item}, $z)");
    let expected = format!(
        "h(\n    f(\n        $a,\n        $b,\n    ) . g(\n        $c,\n        ${d},\n    ),\n    $z,\n)\n"
    );
    let split = try_split_long_line(&line, "").unwrap();
    assert_eq!(split, expected);
    assert!(lines_fit(&split));
}

#[test]
fn marker_before_the_first_line_is_counted() {
    let a = "a".repeat(54);
    let b = "b".repeat(55);
    let cond = format!("f(${a}, ${b})");
    assert_eq!(cond.len(), 116);
    let line = format!("$x ? $y : {cond} ? $p : $q");
    let expected = format!(
        "$x\n    ? $y\n    : f(\n        ${a},\n        ${b},\n    )\n        ? $p\n        : $q\n"
    );
    let split = try_split_long_line(&line, "").unwrap();
    assert_eq!(split, expected);
    assert!(lines_fit(&split));
}

#[test]
fn word_before_a_closure_may_end_in_any_letter_or_digit() {
    assert_eq!(find_closure_body("\u{e9}function () { x; }"), None);
    assert_eq!(find_closure_body("\u{663}function () { x; }"), None);
    assert_eq!(find_closure_body("\u{d7}function () { x; }"), Some((13, 18)));
}
