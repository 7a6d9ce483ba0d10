use asterisk::grammar::{Grammar, Token};

/// The arithmetic expression grammar:
/// `A -> B '+' A | B`, `B -> C '*' B | C`, `C -> '(' A ')' | Int`,
/// entry `A`.
fn arith_grammar() -> Grammar {
    let mut b = Grammar::builder();
    let p = b
        .prod_builder()
        .non_term("B".to_string())
        .term("+".to_string())
        .non_term("A".to_string())
        .finish();
    let mut b = b.production("A".to_string(), p, "v0 + v2".to_string());
    let p = b.prod_builder().non_term("B".to_string()).finish();
    let mut b = b.production("A".to_string(), p, "v0".to_string());
    let p = b
        .prod_builder()
        .non_term("C".to_string())
        .term("*".to_string())
        .non_term("B".to_string())
        .finish();
    let mut b = b.production("B".to_string(), p, "v0 * v2".to_string());
    let p = b.prod_builder().non_term("C".to_string()).finish();
    let mut b = b.production("B".to_string(), p, "v0".to_string());
    let p = b
        .prod_builder()
        .term("(".to_string())
        .non_term("A".to_string())
        .term(")".to_string())
        .finish();
    let mut b = b.production("C".to_string(), p, "v1".to_string());
    let p = b.prod_builder().term("Int".to_string()).finish();
    let b = b.production("C".to_string(), p, "v0".to_string());
    b.finish("A".to_string())
}

#[test]
fn builder_appends_synthetic_start_production() {
    let g = arith_grammar();
    let entries = g.entries();
    assert_eq!(entries.len(), 7);
    let last = &entries[entries.len() - 1];
    assert_eq!(g.pool().get(last.rule_name()), "S0");
    let toks = last.tokens();
    assert_eq!(toks.len(), 2);
    let a = g.pool().reverse_lookup("A").unwrap();
    assert_eq!(toks[0], Token::NonTerm(a));
    assert_eq!(toks[1], Token::Eof);
    assert_eq!(last.code(), "");
}

#[test]
fn productions_come_in_declaration_order() {
    let g = arith_grammar();
    let c = g.pool().reverse_lookup("C").unwrap();
    let prods = g.productions(c);
    assert_eq!(prods.len(), 2);
    let lp = g.pool().reverse_lookup("(").unwrap();
    let int_t = g.pool().reverse_lookup("Int").unwrap();
    assert_eq!(prods[0][0], Token::Term(lp));
    assert_eq!(prods[1], vec![Token::Term(int_t)]);
}

#[test]
fn first_of_terminal_is_the_terminal() {
    let g = arith_grammar();
    let lp = g.pool().reverse_lookup("(").unwrap();
    let f = g.first(&vec![Token::Term(lp)]);
    assert_eq!(f, vec![Token::Term(lp)]);
}

#[test]
fn first_of_empty_sequence_is_epsilon() {
    let g = arith_grammar();
    let f = g.first(&vec![]);
    assert_eq!(f, vec![Token::Empty]);
}

#[test]
fn first_expands_nonterminals() {
    let g = arith_grammar();
    let a = g.pool().reverse_lookup("A").unwrap();
    let lp = g.pool().reverse_lookup("(").unwrap();
    let int_t = g.pool().reverse_lookup("Int").unwrap();
    let f = g.first(&vec![Token::NonTerm(a)]);
    // '(' was interned before Int, so it sorts first
    assert_eq!(f, vec![Token::Term(lp), Token::Term(int_t)]);
}

#[test]
fn first_skips_left_recursion() {
    let mut b = Grammar::builder();
    let p = b
        .prod_builder()
        .non_term("L".to_string())
        .term("x".to_string())
        .finish();
    let mut b = b.production("L".to_string(), p, "".to_string());
    let p = b.prod_builder().term("y".to_string()).finish();
    let b = b.production("L".to_string(), p, "".to_string());
    let g = b.finish("L".to_string());
    let l = g.pool().reverse_lookup("L").unwrap();
    let y = g.pool().reverse_lookup("y").unwrap();
    let f = g.first(&vec![Token::NonTerm(l)]);
    assert_eq!(f, vec![Token::Term(y)]);
}

#[test]
fn first_propagates_epsilon() {
    // N -> ε | 'x' N ; FIRST(N) admits ε and 'x'
    let mut b = Grammar::builder();
    let p = b.prod_builder().finish();
    let mut b = b.production("NN".to_string(), p, "".to_string());
    let p = b
        .prod_builder()
        .term("x".to_string())
        .non_term("NN".to_string())
        .finish();
    let b = b.production("NN".to_string(), p, "".to_string());
    let g = b.finish("NN".to_string());
    let nn = g.pool().reverse_lookup("NN").unwrap();
    let x = g.pool().reverse_lookup("x").unwrap();
    let f = g.first(&vec![Token::NonTerm(nn)]);
    assert_eq!(f, vec![Token::Term(x), Token::Empty]);
}

#[test]
fn fold_dispatches_on_the_variant() {
    let g = arith_grammar();
    let a = g.pool().reverse_lookup("A").unwrap();
    let int_t = g.pool().reverse_lookup("Int").unwrap();
    assert_eq!(Token::NonTerm(a).fold(|_| 1, |_| 2, 3), 1);
    assert_eq!(Token::Term(int_t).fold(|_| 1, |_| 2, 3), 2);
    assert_eq!(Token::Eof.fold(|_| 1, |_| 2, 3), 3);
    assert_eq!(Token::Empty.fold(|_| 1, |_| 2, 3), 3);
    assert_eq!(Token::Term(int_t).fold(|i| i, |i| i, a), int_t);
}

#[test]
fn token_display_renders_each_variant() {
    let g = arith_grammar();
    let a = g.pool().reverse_lookup("A").unwrap();
    let int_t = g.pool().reverse_lookup("Int").unwrap();
    assert_eq!(Token::Term(int_t).display(g.pool()).render(), "`Int`");
    assert_eq!(Token::NonTerm(a).display(g.pool()).render(), "A");
    assert_eq!(Token::Empty.display(g.pool()).render(), "\u{1d6c6}!");
    assert_eq!(Token::Eof.display(g.pool()).render(), "\u{ff04}");
}

#[test]
fn grammar_render_lists_every_production() {
    let g = arith_grammar();
    let text = g.render();
    assert!(text.contains("A -> B `+` A "));
    assert!(text.contains("C -> `Int` "));
    assert!(text.contains("S0 -> A \u{ff04} "));
}
