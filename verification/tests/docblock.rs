use phew::formatter::docblock::{
    emit_docblock_php, expand_single_line_docblock, extract_docblock_body, flush_docblocks,
    is_docblock_only, merge_descriptions_and_vars, merge_docblock_bodies, normalize_var_body,
};

#[test]
fn expand_single_line() {
    assert_eq!(
        expand_single_line_docblock("/** @var string $x */"),
        Some("/**\n * @var string $x\n */".to_string())
    );
}

#[test]
fn expand_empty_docblock() {
    assert_eq!(expand_single_line_docblock("/** */"), Some("/**\n */".to_string()));
}

#[test]
fn extract_body() {
    assert_eq!(
        extract_docblock_body("/** @var string $x */"),
        Some("@var string $x".to_string())
    );
}

#[test]
fn extract_empty_returns_none() {
    assert_eq!(extract_docblock_body("/** */"), None);
}

#[test]
fn merge_single_body() {
    assert_eq!(
        merge_docblock_bodies(&["@var string $x".to_string()]),
        "/**\n * @var string $x\n */"
    );
}

#[test]
fn merge_with_empty_separator() {
    let bodies = vec!["Description".to_string(), String::new(), "@var string $x".to_string()];
    assert_eq!(
        merge_docblock_bodies(&bodies),
        "/**\n * Description\n *\n * @var string $x\n */"
    );
}

#[test]
fn descriptions_and_vars_with_separator() {
    let descs = vec!["Hello".to_string()];
    let vars = vec!["@var int $x".to_string()];
    let result = merge_descriptions_and_vars(&descs, &vars);
    assert_eq!(result, vec!["Hello", "", "@var int $x"]);
}

#[test]
fn docblock_only_single_line() {
    assert!(is_docblock_only("/** @var string $x */"));
}

#[test]
fn docblock_only_multiline() {
    assert!(is_docblock_only("/**\n * @var string $x\n */"));
}

#[test]
fn not_docblock_only() {
    assert!(!is_docblock_only("$x = 1;"));
}

#[test]
fn normalize_var_reversed_order() {
    assert_eq!(normalize_var_body("@var $model User"), "@var User $model");
}

#[test]
fn normalize_var_correct_order_unchanged() {
    assert_eq!(normalize_var_body("@var User $model"), "@var User $model");
}

#[test]
fn normalize_var_non_var_unchanged() {
    assert_eq!(normalize_var_body("@return string"), "@return string");
}

#[test]
fn extract_body_normalizes_var_order() {
    assert_eq!(
        extract_docblock_body("/** @var $this yii\\web\\View */"),
        Some("@var yii\\web\\View $this".to_string())
    );
}

#[test]
fn normalize_var_keeps_what_follows() {
    assert_eq!(
        normalize_var_body("@var $rows array the rows to show"),
        "@var array $rows the rows to show"
    );
    assert_eq!(normalize_var_body("@var $a $b"), "@var $a $b");
    assert_eq!(normalize_var_body("@var $a"), "@var $a");
}

#[test]
fn expand_rejects_what_is_no_comment() {
    assert_eq!(expand_single_line_docblock("/**/"), None);
    assert_eq!(expand_single_line_docblock("/**\n * x\n */"), None);
    assert_eq!(expand_single_line_docblock("$x = 1;"), None);
    assert_eq!(
        expand_single_line_docblock("  /** * text */  "),
        Some("/**\n * text\n */".to_string())
    );
}

#[test]
fn descriptions_or_vars_alone_get_no_separator() {
    let descs = vec!["Hello".to_string()];
    let none: Vec<String> = Vec::new();
    assert_eq!(merge_descriptions_and_vars(&descs, &none), vec!["Hello"]);
    assert_eq!(merge_descriptions_and_vars(&none, &descs), vec!["Hello"]);
}

#[test]
fn docblock_only_rejects_mixed_lines() {
    assert!(!is_docblock_only("/**\n * text\n */\n$x = 1;"));
    assert!(!is_docblock_only("/**\n text\n */"));
    assert!(!is_docblock_only("   "));
    assert!(is_docblock_only("/**\n\n * a\n * b\n */"));
}

#[test]
fn flush_writes_one_comment() {
    let mut depth = 1;
    let mut out = String::new();
    flush_docblocks(&["@var int $x".to_string()], "", &mut depth, &mut out);
    assert_eq!(out, "    /**\n     * @var int $x\n     */\n");
    assert_eq!(depth, 1);
    let mut out = String::new();
    flush_docblocks(
        &["Text".to_string(), String::new(), "@var int $x".to_string()],
        "  ",
        &mut depth,
        &mut out,
    );
    assert_eq!(out, "      /**\n       * Text\n       *\n       * @var int $x\n       */\n");
}

#[test]
fn docblock_island_is_written_between_tags() {
    let mut out = String::from("x\n");
    emit_docblock_php("/** @var string $x */", "    ", &mut out);
    assert_eq!(out, "x\n    <?php\n    /**\n     * @var string $x\n     */\n    ?>\n");
}
