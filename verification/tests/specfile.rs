use asterisk::frontends::Render;
use asterisk::generator::{Graph, StateSet};
use asterisk::spec::lex::{tokenize, Token};
use asterisk::spec::{own_grammar, parse, parse_string, SpecError};
use asterisk::table::Table;

fn chars(s: &str) -> Vec<char> {
    s.chars().collect()
}

#[test]
fn tokenize_splits_idents_literals_and_punctuation() {
    let toks = tokenize(&chars("entry = Expr\nExpr : {int} | T1 {v0}\n")).unwrap();
    assert_eq!(
        toks,
        vec![
            Token::Ident("entry".to_string()),
            Token::Equals,
            Token::Ident("Expr".to_string()),
            Token::Ident("Expr".to_string()),
            Token::Colon,
            Token::Literal("int".to_string()),
            Token::Pipe,
            Token::Ident("T1".to_string()),
            Token::Literal("v0".to_string()),
        ]
    );
}

#[test]
fn tokenize_skips_comments_and_balances_braces() {
    let toks = tokenize(&chars("# a comment\nab = { x { y } z }\n")).unwrap();
    assert_eq!(
        toks,
        vec![
            Token::Ident("ab".to_string()),
            Token::Equals,
            Token::Literal(" x { y } z ".to_string()),
        ]
    );
}

#[test]
fn tokenize_rejects_one_letter_identifiers_and_open_braces() {
    assert_eq!(tokenize(&chars("a ")), Err(0));
    assert_eq!(tokenize(&chars("ab = { open")), Err(5));
    assert_eq!(tokenize(&chars("%")), Err(0));
}

#[test]
fn parse_builds_configs_and_rules() {
    let toks = tokenize(&chars(
        "target = ocaml\nprelude = {()}\nEE : {int} | TT {v0} | {0}\n",
    ))
    .unwrap();
    let spec = parse(&toks).unwrap();
    assert_eq!(spec.configs.len(), 2);
    assert_eq!(spec.configs[0].0, "target");
    assert_eq!(spec.configs[0].1, "ocaml");
    assert_eq!(spec.rules.len(), 1);
    assert_eq!(spec.rules[0].name, "EE");
    assert_eq!(spec.rules[0].typ, "int");
    assert_eq!(spec.rules[0].expansions.len(), 2);
    assert_eq!(spec.rules[0].expansions[0].tokens, vec!["TT".to_string()]);
    assert_eq!(spec.rules[0].expansions[0].code, "v0");
    // the second alternative is the empty production
    assert!(spec.rules[0].expansions[1].tokens.is_empty());
}

#[test]
fn parse_reports_the_unexpected_token() {
    let toks = tokenize(&chars("EE | {int}\n")).unwrap();
    match parse(&toks) {
        Err(SpecError::UnexpectedToken { expected, received, position }) => {
            assert_eq!(expected, vec![":".to_string()]);
            assert_eq!(received, Some(Token::Pipe));
            assert_eq!(position, 1);
        },
        other => panic!("expected a syntax error, got {:?}", other.is_ok()),
    }
}

#[test]
fn parse_string_builds_a_working_pipeline() {
    let text = "target = ocaml\n\
                prelude = {type token = TInt of int | TPlus}\n\
                entry = Expr\n\
                token_TInt = {int}\n\
                Expr : {int} | Term TPlus Expr {v0 + v2} | Term {v0}\n\
                Term : {int} | TInt {v0}\n";
    let (g, visitor) = parse_string(text).unwrap();
    let s0 = g.pool().reverse_lookup("S0").unwrap();
    let graph = Graph::make(&g, StateSet::from_items(g.initial(s0)));
    let table = Table::from_graph(&graph).unwrap();
    assert!(table.check_against(&g));
    let out = Render::new(&visitor, &table, &g).render();
    assert!(out.contains("type token = TInt of int | TPlus"));
    assert!(out.contains("and goto_Expr"));
    assert!(out.contains("StackValue_Term_TInt of (int)"));
}

#[test]
fn parse_string_requires_target() {
    let r = parse_string("prelude = {()}\nEE : {int} | TT {v0}\n");
    match r {
        Err(SpecError::MissingRequiredConfig(k)) => assert_eq!(k, "target"),
        _ => panic!("the missing target must be reported"),
    }
}

#[test]
fn parse_string_requires_prelude() {
    let r = parse_string("target = ocaml\nENTRY : {int} | TT {v0}\n");
    match r {
        Err(SpecError::MissingRequiredConfig(k)) => assert_eq!(k, "prelude"),
        _ => panic!("the missing prelude must be reported"),
    }
}

#[test]
fn parse_string_rejects_unknown_targets() {
    let r = parse_string("target = fortran\nprelude = {()}\nENTRY : {int} | TT {v0}\n");
    match r {
        Err(SpecError::UnsupportedTarget(l)) => assert_eq!(l, "fortran"),
        _ => panic!("the unknown target must be reported"),
    }
}

#[test]
fn parse_string_defaults_the_entry_rule_to_upper_entry() {
    // no `entry` configuration, but a rule literally named ENTRY
    let text = "target = ocaml\nprelude = {()}\nENTRY : {int} | TT {v0}\n";
    assert!(parse_string(text).is_ok());
    // and without such a rule the entry type is missing
    let text2 = "target = ocaml\nprelude = {()}\nOther : {int} | TT {v0}\n";
    match parse_string(text2) {
        Err(SpecError::MissingEntryType(n)) => assert_eq!(n, "ENTRY"),
        _ => panic!("the missing entry type must be reported"),
    }
}

#[test]
fn config_keys_match_case_insensitively() {
    let text = "Target = ocaml\nPRELUDE = {()}\nEntry = EE\nEE : {int} | TT {v0}\n";
    assert!(parse_string(text).is_ok());
}

#[test]
fn own_grammar_is_accepted_by_the_synthesiser() {
    let g = own_grammar();
    let s0 = g.pool().reverse_lookup("S0").unwrap();
    let graph = Graph::make(&g, StateSet::from_items(g.initial(s0)));
    let table = Table::from_graph(&graph).expect("the specification grammar is LR(1)");
    assert!(table.check_against(&g));
    assert!(table.node_count() >= 10);
}
