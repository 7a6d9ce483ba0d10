use asterisk::generator::{closure, Graph, StateSet};
use asterisk::grammar::{Grammar, Token};

fn sums_grammar() -> Grammar {
    let mut b = Grammar::builder();
    let p = b
        .prod_builder()
        .non_term("B".to_string())
        .term("+".to_string())
        .non_term("A".to_string())
        .finish();
    let mut b = b.production("A".to_string(), p, "v0 + v2".to_string());
    let p = b.prod_builder().non_term("B".to_string()).finish();
    let mut b = b.production("A".to_string(), p, "v0".to_string());
    let p = b.prod_builder().term("Int".to_string()).finish();
    let b = b.production("B".to_string(), p, "v0".to_string());
    b.finish("A".to_string())
}

fn seed(g: &Grammar) -> StateSet {
    let s0 = g.pool().reverse_lookup("S0").unwrap();
    StateSet::from_items(g.initial(s0))
}

#[test]
fn closure_adds_the_initial_items() {
    let g = sums_grammar();
    let c = closure(&g, seed(&g));
    // S0 -> . A $, plus the A-items and B-items they force
    assert!(c.len() > 1);
    let mut names = Vec::new();
    for i in 0..c.len() {
        names.push(c.index(i).display(g.pool()).render());
    }
    let joined = names.join("\n");
    assert!(joined.contains("S0 -> .A \u{ff04} "));
    assert!(joined.contains("A -> .B `+` A "));
    assert!(joined.contains("B -> .`Int` "));
}

#[test]
fn closure_is_idempotent() {
    let g = sums_grammar();
    let c1 = closure(&g, seed(&g));
    let c2 = closure(&g, c1.clone());
    assert!(c2.set_eq(&c1));
    assert_eq!(c2.len(), c1.len());
}

#[test]
fn graph_starts_at_state_one_and_deduplicates() {
    let g = sums_grammar();
    let graph = Graph::make(&g, seed(&g));
    let n = graph.node_count();
    assert!(n >= 4);
    // no two uids map to equal item-sets
    for a in 1..=n {
        for b in (a + 1)..=n {
            assert!(!graph.set(a).set_eq(graph.set(b)));
        }
    }
}

#[test]
fn graph_records_transitions_for_every_outgoing_symbol() {
    let g = sums_grammar();
    let graph = Graph::make(&g, seed(&g));
    // state 1 must step over Int (shift) and over A and B (gotos)
    let es = graph.edges(1);
    let int_t = g.pool().reverse_lookup("Int").unwrap();
    let a = g.pool().reverse_lookup("A").unwrap();
    let b = g.pool().reverse_lookup("B").unwrap();
    let toks: Vec<Token> = es.iter().map(|e| e.0).collect();
    assert!(toks.contains(&Token::Term(int_t)));
    assert!(toks.contains(&Token::NonTerm(a)));
    assert!(toks.contains(&Token::NonTerm(b)));
    for e in es.iter() {
        assert!(e.1 >= 1 && e.1 <= graph.node_count());
    }
}

#[test]
fn dot_rendering_is_deterministic() {
    let g1 = sums_grammar();
    let graph1 = Graph::make(&g1, seed(&g1));
    let d1 = graph1.print(g1.pool()).render();
    let g2 = sums_grammar();
    let graph2 = Graph::make(&g2, seed(&g2));
    let d2 = graph2.print(g2.pool()).render();
    assert_eq!(d1, d2);
    assert!(d1.starts_with("digraph {"));
    assert!(d1.contains("node1 "));
    assert!(d1.contains("node1 -> "));
}
