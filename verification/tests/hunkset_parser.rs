//! From text to expressions.

use jj_hunk::hunkset::ast::{Arg, Expr, PatternKind, StringPattern};
use jj_hunk::hunkset::parser::{parse, parse_with, tokenize, Token, TokenKind, MAX_DEPTH};

fn kinds(tokens: &[Token]) -> Vec<&TokenKind> {
    tokens.iter().map(|t| &t.kind).collect()
}

#[test]
fn tokenize_simple_expression() {
    let tokens = tokenize("type(insert) & file(\"src/lib.rs\")").unwrap();
    assert_eq!(
        kinds(&tokens),
        vec![
            &TokenKind::Ident("type".into()),
            &TokenKind::LParen,
            &TokenKind::Ident("insert".into()),
            &TokenKind::RParen,
            &TokenKind::Ampersand,
            &TokenKind::Ident("file".into()),
            &TokenKind::LParen,
            &TokenKind::Str("src/lib.rs".into()),
            &TokenKind::RParen,
        ]
    );
}

#[test]
fn tokenize_range() {
    let tokens = tokenize("lines(10..20)").unwrap();
    assert_eq!(
        kinds(&tokens),
        vec![
            &TokenKind::Ident("lines".into()),
            &TokenKind::LParen,
            &TokenKind::Number(10),
            &TokenKind::DotDot,
            &TokenKind::Number(20),
            &TokenKind::RParen,
        ]
    );
}

#[test]
fn tokenize_pattern_prefix() {
    let tokens = tokenize(r#"added(regex:"fn\s+")"#).unwrap();
    assert_eq!(
        kinds(&tokens),
        vec![
            &TokenKind::Ident("added".into()),
            &TokenKind::LParen,
            &TokenKind::Ident("regex".into()),
            &TokenKind::Colon,
            &TokenKind::Str(r"fn\s+".into()),
            &TokenKind::RParen,
        ]
    );
}

#[test]
fn tokenize_string_escapes() {
    let tokens = tokenize(r#""hello\nworld""#).unwrap();
    assert_eq!(tokens.len(), 1);
    match &tokens[0].kind {
        TokenKind::Str(s) => assert_eq!(s, "hello\nworld"),
        _ => panic!("expected string"),
    }
}

#[test]
fn parse_all_none() {
    assert_eq!(parse("all()").unwrap(), Expr::All);
    assert_eq!(parse("none()").unwrap(), Expr::Nothing);
}

#[test]
fn parse_simple_function() {
    let expr = parse("type(insert)").unwrap();
    assert_eq!(
        expr,
        Expr::Function(
            "type".into(),
            vec![Arg::Pattern(StringPattern {
                kind: PatternKind::Exact,
                value: "insert".into(),
                explicit: false,
            })]
        )
    );
}

#[test]
fn parse_union() {
    assert!(matches!(
        parse("type(insert) | type(delete)").unwrap(),
        Expr::Union(_, _)
    ));
}

#[test]
fn parse_intersection() {
    assert!(matches!(
        parse("type(insert) & file(\"src/lib.rs\")").unwrap(),
        Expr::Intersection(_, _)
    ));
}

#[test]
fn parse_negation() {
    assert!(matches!(
        parse("~type(delete)").unwrap(),
        Expr::Negation(_)
    ));
}

#[test]
fn parse_difference() {
    assert!(matches!(
        parse("all() ~ type(delete)").unwrap(),
        Expr::Difference(_, _)
    ));
}

#[test]
fn parse_precedence() {
    match &parse("type(insert) | type(replace) & file(\"x\")").unwrap() {
        Expr::Union(_, right) => assert!(matches!(**right, Expr::Intersection(_, _))),
        other => panic!("expected union, got {:?}", other),
    }
}

#[test]
fn parse_parenthesized() {
    match &parse("(type(insert) | type(replace)) & file(\"x\")").unwrap() {
        Expr::Intersection(left, _) => assert!(matches!(**left, Expr::Union(_, _))),
        other => panic!("expected intersection, got {:?}", other),
    }
}

#[test]
fn parse_range_arg() {
    assert_eq!(
        parse("lines(10..20)").unwrap(),
        Expr::Function("lines".into(), vec![Arg::Range(10, 20)])
    );
}

#[test]
fn parse_pattern_prefix() {
    assert_eq!(
        parse(r#"added(regex:"TODO")"#).unwrap(),
        Expr::Function(
            "added".into(),
            vec![Arg::Pattern(StringPattern {
                kind: PatternKind::Regex,
                value: "TODO".into(),
                explicit: true,
            })]
        )
    );
}

#[test]
fn parse_multiple_args() {
    match &parse(r#"id("hunk-aabb", "hunk-ccdd")"#).unwrap() {
        Expr::Function(name, args) => {
            assert_eq!(name, "id");
            assert_eq!(args.len(), 2);
        }
        other => panic!("expected function, got {:?}", other),
    }
}

#[test]
fn parse_double_negation() {
    match &parse("~~type(delete)").unwrap() {
        Expr::Negation(inner) => assert!(matches!(**inner, Expr::Negation(_))),
        other => panic!("expected double negation, got {:?}", other),
    }
}

#[test]
fn parse_error_shows_caret() {
    let err = parse("type(insert").unwrap_err();
    let display = err.display_with_context();
    assert!(display.contains("type(insert"));
    assert!(display.contains("^"));
}

fn caret_column(input: &str) -> usize {
    let err = parse(input).unwrap_err();
    let display = err.display_with_context();
    let caret_line = display.lines().nth(1).expect("caret line");
    caret_line.find('^').expect("caret")
}

#[test]
fn caret_points_at_the_offending_token() {
    assert_eq!(caret_column("type(insert"), "type(insert".len());
    assert_eq!(caret_column("all() ~ none() ~ all()"), 15);
    assert_eq!(caret_column("type(insert) @"), 13);
}

#[test]
fn bang_is_rejected_and_points_at_tilde() {
    let err = parse("!import()").unwrap_err();
    let msg = err.display_with_context();
    assert!(msg.contains('!'), "should quote the offending '!': {msg}");
    assert!(
        msg.contains('~'),
        "should name '~' as the operator to use: {msg}"
    );
    assert_eq!(caret_column("!import()"), 0);
}

#[test]
fn bang_inside_a_string_literal_is_still_content() {
    assert_eq!(
        parse(r#"content("no!")"#).unwrap(),
        Expr::Function(
            "content".into(),
            vec![Arg::Pattern(StringPattern {
                kind: PatternKind::Substring,
                value: "no!".into(),
                explicit: false,
            })]
        )
    );
    assert!(parse(r#"added(regex:"^\\s*!")"#).is_ok());
}

#[test]
fn bang_is_rejected_in_infix_position() {
    let err = parse("all() ! none()").unwrap_err();
    let msg = err.display_with_context();
    assert!(msg.contains('~'), "should name '~': {msg}");
    assert_eq!(caret_column("all() ! none()"), 6);
}

#[test]
fn deeply_nested_parens_are_a_parse_error_not_a_crash() {
    let input = format!("{}all(){}", "(".repeat(20_000), ")".repeat(20_000));
    let err = parse(&input).unwrap_err();
    assert!(
        err.message().contains("too deeply nested"),
        "expected a nesting error, got: {err:?}"
    );
}

#[test]
fn deeply_stacked_negations_are_a_parse_error_not_a_crash() {
    let input = format!("{}all()", "~".repeat(100_000));
    let err = parse(&input).unwrap_err();
    assert!(
        err.message().contains("too deeply nested"),
        "expected a nesting error, got: {err:?}"
    );
}

#[test]
fn nesting_is_accepted_up_to_the_limit_and_rejected_past_it() {
    let nest = |depth: usize| format!("{}all(){}", "(".repeat(depth), ")".repeat(depth));
    assert_eq!(parse(&nest(MAX_DEPTH)).unwrap(), Expr::All);
    assert!(parse(&nest(MAX_DEPTH + 1))
        .unwrap_err()
        .message()
        .contains("too deeply nested"));

    let tildes = |depth: usize| format!("{}all()", "~".repeat(depth));
    assert!(matches!(
        parse(&tildes(MAX_DEPTH)).unwrap(),
        Expr::Negation(_)
    ));
    assert!(parse(&tildes(MAX_DEPTH + 1))
        .unwrap_err()
        .message()
        .contains("too deeply nested"));
}

#[test]
fn nesting_at_the_limit_fits_a_default_thread_stack() {
    let depth = MAX_DEPTH + 1;
    let parens = format!("{}all(){}", "(".repeat(depth), ")".repeat(depth));
    assert!(parse(&parens).is_err());
    let negations = format!("{}all()", "~".repeat(depth));
    assert!(parse(&negations).is_err());
}

#[test]
fn union_chains_do_not_consume_nesting_depth() {
    let chain = vec!["all()"; MAX_DEPTH * 4].join(" | ");
    assert!(matches!(parse(&chain).unwrap(), Expr::Union(_, _)));
}

#[test]
fn error_names_the_typed_operator_not_the_token_variant() {
    let msg = parse("all() ~ none() ~ all()")
        .unwrap_err()
        .display_with_context();
    assert!(msg.contains('~'), "should show the typed '~': {msg}");
    assert!(
        !msg.contains("Tilde"),
        "leaked the TokenKind variant name: {msg}"
    );
}

#[test]
fn error_names_the_missing_paren_not_the_token_variant() {
    let msg = parse("type(insert").unwrap_err().display_with_context();
    assert!(msg.contains(')'), "should show the missing ')': {msg}");
    assert!(
        !msg.contains("RParen"),
        "leaked the TokenKind variant name: {msg}"
    );
}

#[test]
fn no_error_message_leaks_a_token_variant_name() {
    const VARIANTS: [&str; 11] = [
        "LParen", "RParen", "Pipe", "Ampersand", "Tilde", "Comma", "DotDot", "Ident", "Str",
        "Number", "Colon",
    ];
    for input in [
        "type(insert",
        "all() ~ none() ~ all()",
        "lines(1..)",
        "file(,)",
        "type(insert) type(delete)",
        "|",
        "all() &",
        "added(bogus:\"x\")",
    ] {
        let msg = parse(input).unwrap_err().display_with_context();
        for variant in VARIANTS {
            assert!(
                !msg.contains(variant),
                "{input:?} leaked TokenKind::{variant}: {msg}"
            );
        }
    }
}

#[test]
fn chained_difference_error_explains_the_fix() {
    let msg = parse("all() ~ none() ~ all()")
        .unwrap_err()
        .display_with_context();
    assert!(
        msg.contains("parenthes"),
        "should point at parentheses as the fix: {msg}"
    );
}

#[test]
fn parse_bare_all_and_none() {
    assert_eq!(parse("all").unwrap(), Expr::All);
    assert_eq!(parse("none").unwrap(), Expr::Nothing);
    assert_eq!(parse("(all)").unwrap(), Expr::All);
    assert!(matches!(parse("all | none").unwrap(), Expr::Union(_, _)));
}

#[test]
fn a_tokens_position_is_where_it_stands() {
    let tokens = tokenize("a( \"é\" , 12)").unwrap();
    let positions: Vec<usize> = tokens.iter().map(|t| t.pos).collect();
    assert_eq!(positions, vec![0, 1, 3, 7, 9, 11]);
}

#[test]
fn what_cannot_be_read_is_refused_where_it_stands() {
    for (input, position) in [("all() @", 6), ("file(\"x", 5), ("lines(1.2)", 7)] {
        let e = tokenize(input).unwrap_err();
        assert_eq!(e.position, position, "{input}: {}", e.message);
    }
}

#[test]
fn a_number_that_is_too_large_is_refused() {
    assert!(parse("lines(99999999999999999999999)").is_err());
    assert_eq!(
        parse("lines(7..8)").unwrap(),
        Expr::Function("lines".into(), vec![Arg::Range(7, 8)])
    );
}

#[test]
fn a_bare_number_keeps_its_spelling() {
    match &parse("added(007)").unwrap() {
        Expr::Function(name, args) => {
            assert_eq!(name, "added");
            match &args[..] {
                [Arg::Pattern(p)] => {
                    assert_eq!(p.value, "007");
                    assert!(!p.explicit);
                }
                other => panic!("{other:?}"),
            }
        }
        other => panic!("{other:?}"),
    }
    match &parse("lines(007..010)").unwrap() {
        Expr::Function(_, args) => assert_eq!(args, &vec![Arg::Range(7, 10)]),
        other => panic!("{other:?}"),
    }
}

#[test]
fn expressions_of_every_shape_are_freed() {
    let mut right = Expr::All;
    let mut inner = Expr::Nothing;
    let mut both = Expr::All;
    for i in 0..100_000 {
        right = Expr::Union(Box::new(Expr::All), Box::new(right));
        inner = Expr::Negation(Box::new(inner));
        let pair = Expr::Difference(Box::new(Expr::All), Box::new(Expr::Nothing));
        both = if i % 2 == 0 {
            Expr::Intersection(Box::new(both), Box::new(pair))
        } else {
            Expr::Union(Box::new(pair), Box::new(Expr::Negation(Box::new(both))))
        };
    }
    drop(right);
    drop(inner);
    drop(both);
}

#[test]
fn an_expression_is_copied_as_it_is() {
    let expr = parse(r#"(a("x", 1..2) | none()) & (~b() ~ all())"#).unwrap();
    assert_eq!(expr.clone(), expr);
}

#[test]
fn paths_are_respelled_where_a_backslash_separates() {
    for (written, spelled) in [
        (r#"file("a\b")"#, r#"file("a/b")"#),
        (r#"glob("src\**\*.rs")"#, r#"glob("src/**/*.rs")"#),
        (r#"added(glob:"a\b")"#, r#"added(glob:"a/b")"#),
    ] {
        assert_eq!(parse_with(written, '\\').unwrap(), parse(spelled).unwrap(), "{written}");
        assert_ne!(parse(written).unwrap(), parse(spelled).unwrap(), "{written}");
    }
    for kept in [r#"added("a\b")"#, r#"file(regex:"a\d")"#, r#"file("a/b") & lines(1..2)"#] {
        assert_eq!(parse_with(kept, '\\').unwrap(), parse(kept).unwrap(), "{kept}");
    }
}
