use phew::formatter::indent::{
    contains_outside_strings, count_brackets, count_leading_closers,
    count_semicolons_outside_parens, count_unescaped_quotes, detect_heredoc, detect_open_quote,
    emit_reindented_line, has_switch_case, has_unclosed_string, is_header_php_block,
    is_php_block_closer, is_php_block_opener, is_switch_case_peer, join_ternary_lines,
    matches_keyword_at, normalize_statements, reindent_php_block, skip_string_literal,
    split_header_and_opener,
};

#[test]
fn needle_inside_a_literal_does_not_count() {
    assert!(!contains_outside_strings("a 'break;' b", "break;"));
    assert!(contains_outside_strings("'x' break;", "break;"));
    assert!(!contains_outside_strings("'unterminated break;", "break;"));
    assert!(contains_outside_strings("'a\\'' break;", "break;"));
}

#[test]
fn switch_talk_is_found_whatever_the_case() {
    assert!(has_switch_case("SWITCH ($a): CASE 1:"));
    assert!(has_switch_case("break; default:"));
    assert!(!has_switch_case("if ($a):"));
    assert!(!has_switch_case("switch ($a):"));
}

#[test]
fn openers_and_closers() {
    assert!(is_php_block_opener(" if ($x): "));
    assert!(is_php_block_opener("function () {"));
    assert!(is_php_block_opener("$f = ActiveForm::begin();"));
    assert!(!is_php_block_opener("endif;"));
    assert!(is_php_block_closer("endif;"));
    assert!(is_php_block_closer("ELSE:"));
    assert!(is_php_block_closer("}"));
    assert!(is_php_block_closer("break;"));
    assert!(is_php_block_closer("case 1:"));
    assert!(is_php_block_closer("ActiveForm::end();"));
    assert!(!is_php_block_closer("if ($x):"));
    assert!(!is_php_block_closer("echo 'break;';"));
    assert!(is_switch_case_peer("case 1:"));
    assert!(is_switch_case_peer(" DEFAULT: "));
    assert!(!is_switch_case_peer("switch ($a):"));
}

#[test]
fn header_blocks() {
    assert!(is_header_php_block("use a\\B;"));
    assert!(is_header_php_block("$a;\n  declare(strict_types=1);"));
    assert!(!is_header_php_block("$x = 1;"));
    assert!(!is_header_php_block("$x = 'use ';"));
}

#[test]
fn header_is_parted_from_the_opener() {
    assert_eq!(
        split_header_and_opener("use a\\B;\nif ($x):"),
        Some(("use a\\B;".to_string(), "if ($x):".to_string()))
    );
    assert_eq!(
        split_header_and_opener("use a\\B; foreach ($a as $b):"),
        Some(("use a\\B;".to_string(), "foreach ($a as $b):".to_string()))
    );
    assert_eq!(split_header_and_opener("use a\\B;"), None);
    assert_eq!(split_header_and_opener("if ($x):"), None);
    assert_eq!(split_header_and_opener("use a\\B;\n$x = [1 =>\n2]:"), None);
}

#[test]
fn brackets_are_counted_outside_literals() {
    assert_eq!(count_leading_closers(")]} x"), 3);
    assert_eq!(count_leading_closers("x)"), 0);
    assert_eq!(count_brackets("f(a, [b], '(')"), (2, 2));
    assert_eq!(count_brackets("{ '}"), (1, 0));
}

#[test]
fn literal_is_copied_whole() {
    let chars: Vec<char> = "'a\\'b' c".chars().collect();
    let mut out = String::from(">");
    assert_eq!(skip_string_literal(&chars, 0, &mut out), 6);
    assert_eq!(out, ">'a\\'b'");
    let chars: Vec<char> = "\"open".chars().collect();
    let mut out = String::new();
    assert_eq!(skip_string_literal(&chars, 0, &mut out), 5);
    assert_eq!(out, "\"open");
}

#[test]
fn statements_are_put_one_to_a_line() {
    assert_eq!(normalize_statements("$a = 1; $b = 2;"), "\n$a = 1;\n $b = 2;");
    assert_eq!(normalize_statements("for ($i = 0; $i < 3; $i++) {}"), "\nfor ($i = 0; $i < 3; $i++) {}");
    assert_eq!(normalize_statements("$a = 'x; y';"), "\n$a = 'x; y';");
    assert_eq!(
        normalize_statements("switch ($a): case 1: echo 1; break; default: echo 2;"),
        "\nswitch ($a): \ncase 1: echo 1;\n break;\n \ndefault: echo 2;"
    );
    assert_eq!(normalize_statements("/** @var int $x */ $y = 1;"), "\n\n/** @var int $x\n*/\n\n $y = 1;");
}

#[test]
fn keyword_must_begin_a_word() {
    let chars: Vec<char> = "a case b".chars().collect();
    assert!(matches_keyword_at(&chars, 2, "case "));
    assert!(!matches_keyword_at(&chars, 0, "case "));
    let chars: Vec<char> = "uppercase x".chars().collect();
    assert!(!matches_keyword_at(&chars, 5, "case "));
    assert!(!matches_keyword_at(&chars, 9, "case "));
}

#[test]
fn lines_are_written_at_their_depth() {
    let mut depth = 0;
    let mut out = String::new();
    emit_reindented_line("foo(", "  ", &mut depth, &mut out);
    assert_eq!(depth, 1);
    emit_reindented_line("$a, [[", "  ", &mut depth, &mut out);
    assert_eq!(depth, 2);
    emit_reindented_line("]]", "  ", &mut depth, &mut out);
    assert_eq!(depth, 0);
    emit_reindented_line("? $b", "  ", &mut depth, &mut out);
    emit_reindented_line("* note", "  ", &mut depth, &mut out);
    emit_reindented_line(");", "  ", &mut depth, &mut out);
    assert_eq!(depth, 0);
    assert_eq!(out, "  foo(\n      $a, [[\n  ]]\n      ? $b\n   * note\n  );\n");
}

#[test]
fn depth_never_goes_below_zero() {
    let mut depth = 0;
    let mut out = String::new();
    emit_reindented_line(")))", "", &mut depth, &mut out);
    assert_eq!(depth, 0);
    assert_eq!(out, ")))\n");
    let mut depth = -5;
    emit_reindented_line("x", "", &mut depth, &mut out);
    assert_eq!(depth, 0);
}

#[test]
fn conditional_expressions_are_joined() {
    assert_eq!(
        join_ternary_lines("$a = $b\n    ? 1\n    : 2;\n$c = 3;"),
        "$a = $b ? 1 : 2;\n$c = 3;"
    );
    assert_eq!(join_ternary_lines("$a = $b ?\n1 :\n\n2;"), "$a = $b ? 1 :\n\n2;");
    assert_eq!(join_ternary_lines("$a;\n$b;\n"), "$a;\n$b;");
}

#[test]
fn quotes_are_counted_and_found_open() {
    assert_eq!(count_unescaped_quotes("a 'b' \\' c'", '\''), 3);
    assert_eq!(count_unescaped_quotes("\\", '\''), 0);
    assert!(has_unclosed_string("$a = 'abc"));
    assert!(!has_unclosed_string("$a = 'abc'"));
    assert!(!has_unclosed_string("$a = 'a\"b'"));
    assert_eq!(detect_open_quote("x = \"a 'b"), Some('"'));
    assert_eq!(detect_open_quote("x = 'a\\'"), Some('\''));
    assert_eq!(detect_open_quote("x = 1"), None);
}

#[test]
fn heredoc_marker_is_found() {
    assert_eq!(detect_heredoc("$a = <<<EOT"), Some("EOT".to_string()));
    assert_eq!(detect_heredoc("$a = <<<'EOT'"), Some("EOT".to_string()));
    assert_eq!(detect_heredoc("f(<<< SQL_1,"), Some("SQL_1".to_string()));
    assert_eq!(detect_heredoc("$a = <<<\"EOT\","), None);
    assert_eq!(detect_heredoc("no heredoc"), None);
    assert_eq!(detect_heredoc("<<<"), None);
    assert_eq!(detect_heredoc("<<< a b"), None);
}

#[test]
fn semicolons_are_counted_at_the_top_level() {
    assert_eq!(
        count_semicolons_outside_parens("for ($i = 0; $i < 3; $i++) { a(); b(';'); }"),
        2
    );
    assert_eq!(count_semicolons_outside_parens("echo $x;"), 1);
    assert_eq!(count_semicolons_outside_parens(""), 0);
}

#[test]
fn block_is_reindented_by_its_brackets() {
    assert_eq!(
        reindent_php_block("$a = [\n1,\n  [2,\n3],\n];", "  "),
        "  $a = [\n      1,\n      [2,\n          3],\n  ];\n"
    );
    assert_eq!(reindent_php_block("$a = 1; $b = 2;", ""), "$a = 1;\n$b = 2;\n");
}

#[test]
fn blank_lines_collapse() {
    assert_eq!(reindent_php_block("$a;\n\n\n\n$b;\n\n", ""), "$a;\n\n$b;\n");
    assert_eq!(reindent_php_block("\n\n$a;", ""), "$a;\n");
}

#[test]
fn imports_are_put_in_order() {
    assert_eq!(
        reindent_php_block("use b\\B;\nuse a\\A;\nuse B\\a;\n$x = 1;", ""),
        "\nuse a\\A;\nuse B\\a;\nuse b\\B;\n\n$x = 1;\n"
    );
}

#[test]
fn comment_waits_for_its_statement() {
    assert_eq!(
        reindent_php_block("/** @var $x int */\n$y = 1;", ""),
        "/**\n * @var int $x\n */\n\n$y = 1;\n"
    );
    assert_eq!(
        reindent_php_block("/** @var int $x */\n/** @var int $z */\n$y = 1;", ""),
        "/**\n * @var int $x\n * @var int $z\n */\n\n$y = 1;\n"
    );
    assert_eq!(
        reindent_php_block("/**\n * Text\n * more\n */\n$y = 1;", ""),
        "/**\n * Text\n * more\n */\n\n$y = 1;\n"
    );
}

#[test]
fn imports_behind_a_comment_are_written_before_it() {
    assert_eq!(
        reindent_php_block("/** @var int $x */\nuse a\\B;\n$y = 1;", ""),
        "\nuse a\\B;\n\n/**\n * @var int $x\n */\n\n$y = 1;\n"
    );
}

#[test]
fn heredoc_and_open_literal_are_copied() {
    assert_eq!(
        reindent_php_block("$a = f(<<<EOT\n  keep (\n    this\nEOT\n);", ""),
        "$a = f(<<<EOT\n  keep (\n    this\nEOT\n);\n"
    );
    assert_eq!(
        reindent_php_block("$a = [\n'x\n  y',\n1];", ""),
        "$a = [\n    'x\n  y',\n    1];\n"
    );
}

#[test]
fn blank_line_behind_a_waiting_description_is_held_back() {
    assert_eq!(
        reindent_php_block("/**\n * Text\n */\n\nuse a\\B;\n$y = 1;", ""),
        "\nuse a\\B;\n\n/**\n * Text\n */\n\n$y = 1;\n"
    );
    assert_eq!(
        reindent_php_block("/** @var int $x */\n\n$y = 1;", ""),
        "/**\n * @var int $x\n */\n\n$y = 1;\n"
    );
}
