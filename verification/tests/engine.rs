use phew::formatter::engine;
use phew::parser::ast::{parse, Node};
use phew::parser::lexer::tokenize;

fn format_str(input: &str) -> String {
    let tokens = tokenize(input);
    let nodes = parse(tokens);
    engine::format(&nodes)
}

#[test]
fn engine_simple_div() {
    assert_eq!(format_str("<div>hello</div>"), "<div>hello</div>\n");
}

#[test]
fn nested_html() {
    let input = "<div><p>text</p></div>";
    let expected = "\
<div>
    <p>text</p>
</div>
";
    assert_eq!(format_str(input), expected);
}

#[test]
fn self_closing_tag() {
    assert_eq!(format_str("<br />"), "<br />\n");
}

#[test]
fn php_echo_inline() {
    let input = "<h1><?= $title ?></h1>";
    assert_eq!(format_str(input), "<h1><?= $title ?></h1>\n");
}

#[test]
fn php_block_indentation() {
    let input = "<div><?php if ($x): ?><p>yes</p><?php endif; ?></div>";
    let expected = "\
<div>
    <?php if ($x): ?>
        <p>yes</p>
    <?php endif; ?>
</div>
";
    assert_eq!(format_str(input), expected);
}

#[test]
fn attributes_preserved() {
    let input = r#"<div class="container" id="main"><p>hi</p></div>"#;
    let expected = "\
<div class=\"container\" id=\"main\">
    <p>hi</p>
</div>
";
    assert_eq!(format_str(input), expected);
}

#[test]
fn nested_php_blocks() {
    let input = "<div><?php if ($a): ?><?php foreach ($items as $i): ?><p><?= $i ?></p><?php endforeach; ?><?php endif; ?></div>";
    let expected = "\
<div>
    <?php if ($a): ?>
        <?php foreach ($items as $i): ?>
            <p><?= $i ?></p>
        <?php endforeach; ?>
    <?php endif; ?>
</div>
";
    assert_eq!(format_str(input), expected);
}

#[test]
fn formatting_a_formatted_template_changes_nothing() {
    let input = "<div><?php if ($x): ?><p>yes</p><?php endif; ?></div>";
    let once = format_str(input);
    assert_eq!(format_str(&once), once);
    let once = format_str("<ul><?php foreach ($a as $b): ?><li><?= $b ?></li><?php endforeach; ?></ul>");
    assert_eq!(format_str(&once), once);
}

#[test]
fn doctype_and_comment_are_kept() {
    assert_eq!(
        format_str("<!DOCTYPE html><!-- note --><p>x</p>"),
        "<!DOCTYPE html>\n<!-- note -->\n<p>x</p>\n"
    );
}

#[test]
fn raw_text_is_copied() {
    let input = "<div><script>\nvar a = 1;\n  var b = 2;\n</script></div>";
    let expected = "\
<div>
    <script>
    var a = 1;
  var b = 2;
    </script>
</div>
";
    assert_eq!(format_str(input), expected);
}

#[test]
fn else_stands_level_with_its_if() {
    let input = "<?php if ($a): ?><p>x</p><?php else: ?><p>y</p><?php endif; ?>";
    let expected = "\
<?php if ($a): ?>
    <p>x</p>
<?php else: ?>
    <p>y</p>
<?php endif; ?>
";
    assert_eq!(format_str(input), expected);
}

#[test]
fn switch_labels_stand_one_deeper() {
    let input = "<?php switch ($a): ?><?php case 1: ?><p>x</p><?php break; ?><?php default: ?><p>y</p><?php endswitch; ?>";
    let expected = "\
<?php switch ($a): ?>
    <?php case 1: ?>
        <p>x</p>
        <?php break; ?>
    <?php default: ?>
        <p>y</p>
<?php endswitch; ?>
";
    assert_eq!(format_str(input), expected);
}

#[test]
fn widget_pair_indents_what_stands_between() {
    let input = "<?php $form = ActiveForm::begin(); ?><p>x</p><?php ActiveForm::end(); ?>";
    let expected = "\
<?php $form = ActiveForm::begin(); ?>
    <p>x</p>
<?php ActiveForm::end(); ?>
";
    assert_eq!(format_str(input), expected);
}

#[test]
fn echo_statement_becomes_an_echo_tag() {
    assert_eq!(format_str("<?php echo $x; ?>"), "<?= $x ?>\n");
}

#[test]
fn docblock_gets_tags_of_its_own() {
    assert_eq!(
        format_str("<?php /** @var $this View */ ?>"),
        "<?php\n/**\n * @var $this View\n */\n?>\n"
    );
}

#[test]
fn header_blocks_are_taken_together() {
    let input = "<?php use a\\B; ?>\n<?php use a\\A; ?>\n<p>x</p>";
    let expected = "<?php\n\nuse a\\A;\nuse a\\B;\n\n?>\n<p>x</p>\n";
    assert_eq!(format_str(input), expected);
}

#[test]
fn wide_tag_is_written_attribute_by_attribute() {
    let long = "x".repeat(100);
    let input = format!("<div class=\"{long}\" id=\"main\"><p>hi</p></div>");
    let expected = format!("<div\n    class=\"{long}\"\n    id=\"main\"\n>\n    <p>hi</p>\n</div>\n");
    assert_eq!(format_str(&input), expected);
}

#[test]
fn blank_text_between_nodes() {
    let nodes = vec![
        Node::Text("a".into()),
        Node::Text("\n\n".into()),
        Node::Text("\n".into()),
        Node::Text("b".into()),
    ];
    assert_eq!(engine::format(&nodes), "a\n\nb\n");
}
