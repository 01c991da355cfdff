use phew::formatter::php::{format_php_code, join_php_lines, split_by_args, split_by_chain, split_by_commas, split_by_concat};
use phew::text::{is_digit, is_letter, is_letter_or_digit, is_white_space, trim_of};

#[test]
fn keyword_space() {
    assert_eq!(format_php_code("if($x):"), "if ($x):");
}

#[test]
fn keyword_already_spaced() {
    assert_eq!(format_php_code("if ($x):"), "if ($x):");
}

#[test]
fn foreach_keyword() {
    assert_eq!(
        format_php_code("foreach($items as $item):"),
        "foreach ($items as $item):"
    );
}

#[test]
fn arrow_spacing() {
    assert_eq!(format_php_code("'id'=>$item->id"), "'id' => $item->id");
}

#[test]
fn arrow_already_spaced() {
    assert_eq!(format_php_code("'id' => $item->id"), "'id' => $item->id");
}

#[test]
fn comma_spacing() {
    assert_eq!(format_php_code("$a,$b,$c"), "$a, $b, $c");
}

#[test]
fn comma_already_spaced() {
    assert_eq!(format_php_code("$a, $b, $c"), "$a, $b, $c");
}

#[test]
fn object_arrow_untouched() {
    assert_eq!(format_php_code("$model->title"), "$model->title");
}

#[test]
fn string_content_untouched() {
    assert_eq!(
        format_php_code("Html::a('foo=>bar','baz')"),
        "Html::a('foo=>bar', 'baz')"
    );
}

#[test]
fn complex_yii_call() {
    let input = "Html::a($item->name,['item/view','id'=>$item->id],['class'=>'btn btn-primary'])";
    let expected = "Html::a($item->name, ['item/view', 'id' => $item->id], ['class' => 'btn btn-primary'])";
    assert_eq!(format_php_code(input), expected);
}

#[test]
fn endif_unchanged() {
    assert_eq!(format_php_code("endif;"), "endif;");
}

#[test]
fn echo_expression() {
    assert_eq!(
        format_php_code("Html::encode($model->title)"),
        "Html::encode($model->title)"
    );
}

#[test]
fn bracket_spaces_are_dropped() {
    assert_eq!(format_php_code("foo(  $a , [ 1,2 ]  )"), "foo($a , [1, 2])");
}

#[test]
fn escaped_quote_stays_inside_literal() {
    assert_eq!(format_php_code("f('a\\',b',c)"), "f('a\\',b', c)");
}

#[test]
fn unterminated_literal_is_copied() {
    assert_eq!(format_php_code("f('a,b"), "f('a,b");
}

#[test]
fn formatting_twice_changes_nothing() {
    let once = format_php_code("if( $a=>[ 1,2 ] ,'x,y' )");
    assert_eq!(format_php_code(&once), once);
}

#[test]
fn join_lines_trims_and_glues_arrows() {
    assert_eq!(join_php_lines("$a\n    ->b()\n    ->c()"), "$a->b()->c()");
    assert_eq!(join_php_lines("  foo(\r\n  1,\n 2)\n"), "foo( 1, 2)");
}

#[test]
fn chain_is_cut_at_top_level_arrows() {
    assert_eq!(
        split_by_chain("$a->b($x->y)->c('->')"),
        vec!["$a".to_string(), "->b($x->y)".to_string(), "->c('->')".to_string()]
    );
    assert_eq!(split_by_chain(""), Vec::<String>::new());
}

#[test]
fn commas_are_cut_at_top_level() {
    assert_eq!(
        split_by_commas("a, [b, c], 'd,e', f(g, h)"),
        vec!["a".to_string(), "[b, c]".to_string(), "'d,e'".to_string(), "f(g, h)".to_string()]
    );
    assert_eq!(split_by_commas("a, b, "), vec!["a".to_string(), "b".to_string()]);
    assert_eq!(split_by_commas("a,,b"), vec!["a".to_string(), "".to_string(), "b".to_string()]);
}

#[test]
fn args_are_cut_from_a_call() {
    let (prefix, args, suffix) = split_by_args("foo($a, [1, 2], 'x)') ?>").unwrap();
    assert_eq!(prefix, "foo(");
    assert_eq!(args, vec!["$a".to_string(), "[1, 2]".to_string(), "'x)'".to_string()]);
    assert_eq!(suffix, ") ?>");
    assert_eq!(split_by_args("foo($a)"), None);
    assert_eq!(split_by_args("foo($a, $b"), None);
    assert_eq!(split_by_args("no call"), None);
}

#[test]
fn concat_is_cut_at_joining_dots() {
    assert_eq!(
        split_by_concat("$a . 'x.y' . f($b . $c) . 1.5"),
        vec!["$a".to_string(), "'x.y'".to_string(), "f($b . $c)".to_string(), "1.5".to_string()]
    );
    assert_eq!(split_by_concat("$a .= $b"), vec!["$a .= $b".to_string()]);
    assert_eq!(split_by_concat("f(...$a)"), vec!["f(...$a)".to_string()]);
}

#[test]
fn spacing_is_stable_on_awkward_lines() {
    let lines = [
        "(=>",
        "( =>x",
        "=>)",
        "a => )",
        ",)",
        ", ]",
        "if()",
        "if (",
        "foreach( $a as $k=>$v ):",
        "f( 'a , b' ,[ 1 ,2 ] , )",
        "x =>\ny",
        "a,\nb",
        "  lead  and  trail  ",
        "while(true){ f( ) ;}",
        "'open , (",
        "\"a\\\" =>\" =>b",
        "match($x){1=>'a',2=>'b'}",
        "$a[ $i ]=>$b[ 'k' ]",
        "=>=>",
        "((  ))",
        "",
    ];
    for line in lines {
        let once = format_php_code(line);
        assert_eq!(format_php_code(&once), once, "on {line:?}");
        let kept: String = once.chars().filter(|c| *c != ' ').collect();
        let had: String = line.chars().filter(|c| *c != ' ').collect();
        assert_eq!(kept, had, "on {line:?}");
    }
}

#[test]
fn exactly_one_space_around_arrows_and_behind_commas() {
    assert_eq!(format_php_code("['a'  =>  1,  2]"), "['a' => 1, 2]");
    assert_eq!(format_php_code("$a   =>$b"), "$a => $b");
    assert_eq!(format_php_code("f(a ,   b)"), "f(a , b)");
    assert_eq!(format_php_code("a,\nb"), "a,\nb");
    assert_eq!(format_php_code("a,   \nb"), "a,\nb");
    assert_eq!(format_php_code("a,   "), "a,");
    assert_eq!(format_php_code("a=>"), "a => ");
    assert_eq!(format_php_code("[1 =>  ]"), "[1 =>]");
    assert_eq!(format_php_code("'a'  =>  'b  ,  c'"), "'a' => 'b  ,  c'");
}

#[test]
fn literals_are_kept() {
    assert_eq!(
        format_php_code("f( 'a ,=>( b' ,\"c\\\" , d\" ,'open , ( =>"),
        "f('a ,=>( b' , \"c\\\" , d\" , 'open , ( =>"
    );
}

#[test]
fn characters_above_the_first_128_are_classed() {
    assert!(is_white_space('\u{a0}'));
    assert!(is_white_space('\u{2003}'));
    assert!(!is_white_space('\u{e9}'));
    assert!(is_letter('\u{e9}'));
    assert!(!is_letter('\u{d7}'));
    assert!(is_digit('\u{663}'));
    assert!(!is_digit('\u{e9}'));
    assert!(is_letter_or_digit('\u{663}'));
    assert!(!is_letter_or_digit('\u{d7}'));
    let padded: Vec<char> = "\u{2003}a\u{a0}".chars().collect();
    assert_eq!(trim_of(&padded), &['a']);
}

#[test]
fn characters_of_the_first_128_are_classed() {
    for c in ['\t', '\n', '\u{b}', '\u{c}', '\r', ' '] {
        assert!(is_white_space(c));
    }
    for c in ['\u{8}', '\u{e}', '\u{1f}', '!', '_', 'a', '0', '\u{7f}'] {
        assert!(!is_white_space(c));
    }
    for c in ['a', 'z', 'A', 'Z', 'm'] {
        assert!(is_letter(c));
        assert!(is_letter_or_digit(c));
    }
    for c in ['`', '{', '@', '[', '_', '0', '$'] {
        assert!(!is_letter(c));
    }
    for c in ['0', '5', '9'] {
        assert!(is_digit(c));
        assert!(is_letter_or_digit(c));
    }
    for c in ['/', ':', 'a', '_'] {
        assert!(!is_digit(c));
    }
    for code in 0u32..128 {
        let c = char::from_u32(code).unwrap();
        assert_eq!(is_white_space(c), c.is_whitespace());
        assert_eq!(is_letter(c), c.is_alphabetic());
        assert_eq!(is_digit(c), c.is_numeric());
    }
}
