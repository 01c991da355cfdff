use phew::formatter::echo::{
    contains_break, format_echo, format_echo_array_split, format_echo_chain, format_echo_concat,
    is_echo_block_closer, is_echo_block_opener, is_single_echo_block, split_ternary,
};

#[test]
fn single_echo_block() {
    assert!(is_single_echo_block(" echo $x; "));
    assert!(is_single_echo_block("echo $x"));
    assert!(!is_single_echo_block("echo $a; echo $b;"));
    assert!(!is_single_echo_block("echo $a\n. $b;"));
    assert!(!is_single_echo_block("print $x;"));
}

#[test]
fn widget_marks() {
    assert!(is_echo_block_opener("ActiveForm::begin()"));
    assert!(is_echo_block_opener("Html::beginTag('div')"));
    assert!(!is_echo_block_opener("Html::a('x')"));
    assert!(is_echo_block_closer("ActiveForm::END()"));
    assert!(is_echo_block_closer("Html::endTag('div')"));
    assert!(!is_echo_block_closer("$x"));
    assert!(contains_break(" BREAK; "));
    assert!(!contains_break("'break;'"));
}

#[test]
fn echo_that_fits_stays_on_one_line() {
    assert_eq!(format_echo("$title", ""), "<?= $title ?>\n");
    assert_eq!(format_echo("Html::a($a,\n    $b)", "    "), "    <?= Html::a($a, $b) ?>\n");
    assert_eq!(format_echo("$a\n    ->b()", ""), "<?= $a->b() ?>\n");
}

#[test]
fn wide_echo_is_split_at_its_arguments() {
    let pad = " ".repeat(28);
    let expr = "Html::a($item->name, ['item/view', 'id' => $item->id], ['class' => 'btn btn-primary'])";
    let expected = format!(
        "{pad}<?= Html::a(\n{pad}    $item->name,\n{pad}    ['item/view', 'id' => $item->id],\n{pad}    ['class' => 'btn btn-primary'],\n{pad}) ?>\n"
    );
    assert_eq!(format_echo(expr, &pad), expected);
    let pad = " ".repeat(12);
    assert_eq!(format_echo(expr, &pad), format!("{pad}<?= {expr} ?>\n"));
}

#[test]
fn wide_chain_is_split_at_its_links() {
    let b = "b".repeat(40);
    let expr = format!("$a->{b}()->{b}($x->y)->{b}()");
    let expected = format!("  <?= $a->{b}()\n      ->{b}($x->y)\n      ->{b}() ?>\n");
    assert_eq!(format_echo(&expr, "  "), expected);
    let parts = vec!["$a".to_string(), "->b()".to_string(), "->c()".to_string()];
    assert_eq!(format_echo_chain(&parts, ""), "<?= $a->b()\n    ->c() ?>\n");
}

#[test]
fn wide_conditional_echo_is_split() {
    let a = "a".repeat(60);
    let b = "b".repeat(60);
    let expr = format!("$c ? '{a}' : '{b}'");
    let expected = format!("<?= $c\n    ? '{a}'\n    : '{b}' ?>\n");
    assert_eq!(format_echo(&expr, ""), expected);
    assert_eq!(
        split_ternary("$a ? 1 : 2", "  "),
        Some("  <?= $a\n      ? 1\n      : 2 ?>\n".to_string())
    );
    assert_eq!(split_ternary("$a ?? 1", ""), None);
}

#[test]
fn wide_joined_texts_are_split() {
    let a = "a".repeat(60);
    let b = "b".repeat(60);
    let expr = format!("'{a}' . '{b}' . $c");
    let expected = format!("<?= '{a}'\n    . '{b}'\n    . $c ?>\n");
    assert_eq!(format_echo(&expr, ""), expected);
    let parts = vec!["$a".to_string(), "$b".to_string()];
    assert_eq!(format_echo_concat(&parts, "  "), "  <?= $a\n      . $b ?>\n");
}

#[test]
fn list_as_last_argument_is_split_alone() {
    let a = "a".repeat(50);
    let b = "b".repeat(50);
    let expr = format!("f($x, ['{a}', '{b}'])");
    let expected = format!("<?= f($x, [\n    '{a}',\n    '{b}',\n]) ?>\n");
    assert_eq!(format_echo(&expr, ""), expected);
    let args = vec!["$x".to_string(), "[1, 2]".to_string()];
    assert_eq!(
        format_echo_array_split("f(", &args, ")", "  "),
        Some("  <?= f($x, [\n      1,\n      2,\n  ]) ?>\n".to_string())
    );
    let args = vec!["$x".to_string(), "[1]".to_string()];
    assert_eq!(format_echo_array_split("f(", &args, ")", ""), None);
    let args = vec!["[1, 2]".to_string(), "$x".to_string()];
    assert_eq!(format_echo_array_split("f(", &args, ")", ""), None);
}

#[test]
fn wide_echo_without_a_place_to_split_stays() {
    let wide = "x".repeat(130);
    assert_eq!(format_echo(&wide, ""), format!("<?= {wide} ?>\n"));
}

#[test]
fn split_that_does_not_fit_is_passed_over() {
    let a = "a".repeat(130);
    let expr = format!("$c ? '{a}' : 'b'");
    assert_eq!(format_echo(&expr, ""), format!("<?= {expr} ?>\n"));
    let b = "b".repeat(60);
    let expr = format!("f('{a}', $x->{b}()->{b}()->{b}())");
    assert_eq!(format_echo(&expr, ""), format!("<?= {expr} ?>\n"));
}

#[test]
fn later_strategy_wins_where_an_earlier_one_does_not_fit() {
    let a = "a".repeat(60);
    let c = "c".repeat(60);
    let expr = format!("$x->a()->b('{a}') . '{c}'");
    let expected = format!("<?= $x->a()->b('{a}')\n    . '{c}' ?>\n");
    assert_eq!(format_echo(&expr, ""), expected);
}

#[test]
fn every_line_of_a_split_echo_fits() {
    let pad = " ".repeat(28);
    let expr = "Html::a($item->name, ['item/view', 'id' => $item->id], ['class' => 'btn btn-primary'])";
    let text = format_echo(expr, &pad);
    assert!(text.lines().count() > 1);
    assert!(text.lines().all(|line| line.len() <= 120));
}
