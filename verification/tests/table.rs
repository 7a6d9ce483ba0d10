use asterisk::generator::{Graph, StateSet};
use asterisk::grammar::{Grammar, Token};
use asterisk::table::{Action, Table};

fn arith() -> Grammar {
    let mut b = Grammar::builder();
    let p = b
        .prod_builder()
        .non_term("B".to_string())
        .term("+".to_string())
        .non_term("A".to_string())
        .finish();
    let mut b = b.production("A".to_string(), p, "v0 + v2".to_string());
    let p = b.prod_builder().non_term("B".to_string()).finish();
    let mut b = b.production("A".to_string(), p, "v0".to_string());
    let p = b
        .prod_builder()
        .non_term("C".to_string())
        .term("*".to_string())
        .non_term("B".to_string())
        .finish();
    let mut b = b.production("B".to_string(), p, "v0 * v2".to_string());
    let p = b.prod_builder().non_term("C".to_string()).finish();
    let mut b = b.production("B".to_string(), p, "v0".to_string());
    let p = b
        .prod_builder()
        .term("(".to_string())
        .non_term("A".to_string())
        .term(")".to_string())
        .finish();
    let mut b = b.production("C".to_string(), p, "v1".to_string());
    let p = b.prod_builder().term("Int".to_string()).finish();
    let b = b.production("C".to_string(), p, "v0".to_string());
    b.finish("A".to_string())
}

fn graph_of(g: &Grammar) -> Graph {
    let s0 = g.pool().reverse_lookup("S0").unwrap();
    Graph::make(g, StateSet::from_items(g.initial(s0)))
}

#[test]
fn arithmetic_grammar_has_no_conflict() {
    let g = arith();
    let graph = graph_of(&g);
    let table = Table::from_graph(&graph).expect("the grammar is LR(1)");
    assert_eq!(table.node_count(), graph.node_count());
    assert!(table.check_against(&g));
}

#[test]
fn start_state_shifts_the_first_set_of_the_entry_rule() {
    let g = arith();
    let graph = graph_of(&g);
    let table = Table::from_graph(&graph).unwrap();
    let lp = g.pool().reverse_lookup("(").unwrap();
    let int_t = g.pool().reverse_lookup("Int").unwrap();
    let acts = table.entry(1).actions();
    let toks: Vec<Token> = acts.iter().map(|e| e.0).collect();
    assert_eq!(toks, vec![Token::Term(lp), Token::Term(int_t)]);
    for (_, a) in acts.iter() {
        assert!(matches!(a, Action::Shift(_)));
    }
    let a = g.pool().reverse_lookup("A").unwrap();
    let gotos = table.entry(1).gotos();
    assert!(gotos.iter().any(|e| e.0 == a));
}

#[test]
fn shift_reduce_conflict_is_reported() {
    // E -> E '+' E | Int is ambiguous
    let mut b = Grammar::builder();
    let p = b
        .prod_builder()
        .non_term("E".to_string())
        .term("+".to_string())
        .non_term("E".to_string())
        .finish();
    let mut b = b.production("E".to_string(), p, "".to_string());
    let p = b.prod_builder().term("Int".to_string()).finish();
    let b = b.production("E".to_string(), p, "".to_string());
    let g = b.finish("E".to_string());
    let graph = graph_of(&g);
    let plus = g.pool().reverse_lookup("+").unwrap();
    match Table::from_graph(&graph) {
        Ok(_) => panic!("the ambiguous grammar must be rejected"),
        Err(c) => {
            assert_eq!(c.token, Token::Term(plus));
            assert!(c.state >= 1 && c.state <= graph.node_count());
            let shown = c.either.display(g.pool()).render();
            let other = c.or.display(g.pool()).render();
            assert_ne!(shown, other);
        },
    }
}

#[test]
fn reduce_reduce_conflict_is_reported() {
    // S -> A | B, A -> x, B -> x: after `x` both reduces claim Eof
    let mut b = Grammar::builder();
    let p = b.prod_builder().non_term("A".to_string()).finish();
    let mut b = b.production("S".to_string(), p, "".to_string());
    let p = b.prod_builder().non_term("B".to_string()).finish();
    let mut b = b.production("S".to_string(), p, "".to_string());
    let p = b.prod_builder().term("x".to_string()).finish();
    let mut b = b.production("A".to_string(), p, "".to_string());
    let p = b.prod_builder().term("x".to_string()).finish();
    let b = b.production("B".to_string(), p, "".to_string());
    let g = b.finish("S".to_string());
    let graph = graph_of(&g);
    match Table::from_graph(&graph) {
        Ok(_) => panic!("the reduce/reduce conflict must be reported"),
        Err(c) => {
            assert_eq!(c.token, Token::Eof);
            assert!(matches!(c.either, Action::Reduce(_, _)));
            assert!(matches!(c.or, Action::Reduce(_, _)));
        },
    }
}

#[test]
fn reversing_production_order_keeps_the_table_conflict_free() {
    let mut b = Grammar::builder();
    // the two C-productions of the arithmetic grammar, swapped
    let p = b
        .prod_builder()
        .non_term("B".to_string())
        .term("+".to_string())
        .non_term("A".to_string())
        .finish();
    let mut b = b.production("A".to_string(), p, "v0 + v2".to_string());
    let p = b.prod_builder().non_term("B".to_string()).finish();
    let mut b = b.production("A".to_string(), p, "v0".to_string());
    let p = b
        .prod_builder()
        .non_term("C".to_string())
        .term("*".to_string())
        .non_term("B".to_string())
        .finish();
    let mut b = b.production("B".to_string(), p, "v0 * v2".to_string());
    let p = b.prod_builder().non_term("C".to_string()).finish();
    let mut b = b.production("B".to_string(), p, "v0".to_string());
    let p = b.prod_builder().term("Int".to_string()).finish();
    let mut b = b.production("C".to_string(), p, "v0".to_string());
    let p = b
        .prod_builder()
        .term("(".to_string())
        .non_term("A".to_string())
        .term(")".to_string())
        .finish();
    let b = b.production("C".to_string(), p, "v1".to_string());
    let g = b.finish("A".to_string());
    let graph = graph_of(&g);
    assert!(Table::from_graph(&graph).is_ok());
}

#[test]
fn unreachable_rule_leaves_reachable_entries_unchanged() {
    let g1 = arith();
    // the same grammar with an extra rule nothing reaches
    let mut b = Grammar::builder();
    let p = b
        .prod_builder()
        .non_term("B".to_string())
        .term("+".to_string())
        .non_term("A".to_string())
        .finish();
    let mut b = b.production("A".to_string(), p, "v0 + v2".to_string());
    let p = b.prod_builder().non_term("B".to_string()).finish();
    let mut b = b.production("A".to_string(), p, "v0".to_string());
    let p = b
        .prod_builder()
        .non_term("C".to_string())
        .term("*".to_string())
        .non_term("B".to_string())
        .finish();
    let mut b = b.production("B".to_string(), p, "v0 * v2".to_string());
    let p = b.prod_builder().non_term("C".to_string()).finish();
    let mut b = b.production("B".to_string(), p, "v0".to_string());
    let p = b
        .prod_builder()
        .term("(".to_string())
        .non_term("A".to_string())
        .term(")".to_string())
        .finish();
    let mut b = b.production("C".to_string(), p, "v1".to_string());
    let p = b.prod_builder().term("Int".to_string()).finish();
    let mut b = b.production("C".to_string(), p, "v0".to_string());
    let p = b.prod_builder().term("Int".to_string()).finish();
    let b = b.production("Unused".to_string(), p, "v0".to_string());
    let g2 = b.finish("A".to_string());

    let t1 = Table::from_graph(&graph_of(&g1)).unwrap();
    let t2 = Table::from_graph(&graph_of(&g2)).unwrap();
    assert_eq!(t1.node_count(), t2.node_count());
    for uid in 1..=t1.node_count() {
        let a1 = t1.entry(uid).actions();
        let a2 = t2.entry(uid).actions();
        assert_eq!(a1.len(), a2.len());
        for e in 0..a1.len() {
            assert_eq!(
                a1[e].0.display(g1.pool()).render(),
                a2[e].0.display(g2.pool()).render()
            );
            assert_eq!(
                a1[e].1.display(g1.pool()).render(),
                a2[e].1.display(g2.pool()).render()
            );
        }
        let g1s = t1.entry(uid).gotos();
        let g2s = t2.entry(uid).gotos();
        assert_eq!(g1s.len(), g2s.len());
        for e in 0..g1s.len() {
            assert_eq!(g1.pool().get(g1s[e].0), g2.pool().get(g2s[e].0));
            assert_eq!(g1s[e].1, g2s[e].1);
        }
    }
}

#[test]
fn every_terminal_transition_has_a_shift_entry() {
    let g = arith();
    let graph = graph_of(&g);
    let table = Table::from_graph(&graph).unwrap();
    for uid in 1..=graph.node_count() {
        for (tok, succ) in graph.edges(uid).iter() {
            match tok {
                Token::Term(_) | Token::Eof => {
                    let acts = table.entry(uid).actions();
                    let found = acts.iter().any(|(t, a)| {
                        t == tok && matches!(a, Action::Shift(u) if u == succ)
                    });
                    assert!(found, "transition without a shift in state {uid}");
                },
                _ => {
                    let gotos = table.entry(uid).gotos();
                    let id = match tok {
                        Token::NonTerm(i) => *i,
                        _ => unreachable!(),
                    };
                    assert!(gotos.iter().any(|(s, u)| *s == id && u == succ));
                },
            }
        }
    }
}

#[test]
fn action_tokens_are_terminals_or_eof() {
    let g = arith();
    let graph = graph_of(&g);
    let table = Table::from_graph(&graph).unwrap();
    for uid in 1..=table.node_count() {
        for (tok, _) in table.entry(uid).actions().iter() {
            assert!(matches!(tok, Token::Term(_) | Token::Eof));
        }
    }
}

#[test]
fn action_display_shows_shift_and_reduce() {
    let g = arith();
    let graph = graph_of(&g);
    let table = Table::from_graph(&graph).unwrap();
    let mut shown = Vec::new();
    for uid in 1..=table.node_count() {
        for (_, a) in table.entry(uid).actions().iter() {
            shown.push(a.display(g.pool()).render());
        }
    }
    let joined = shown.join("\n");
    assert!(joined.contains("s"));
    assert!(joined.contains("C -> `Int`"));
}
