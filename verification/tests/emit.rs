use asterisk::frontends::ocaml::OcamlVisitor;
use asterisk::frontends::Render;
use asterisk::generator::{Graph, StateSet};
use asterisk::grammar::Grammar;
use asterisk::table::Table;

fn sums() -> Grammar {
    let mut b = Grammar::builder();
    let p = b
        .prod_builder()
        .non_term("Term".to_string())
        .term("TPlus".to_string())
        .non_term("Expr".to_string())
        .finish();
    let mut b = b.production("Expr".to_string(), p, "v0 + v2".to_string());
    let p = b.prod_builder().non_term("Term".to_string()).finish();
    let mut b = b.production("Expr".to_string(), p, "v0".to_string());
    let p = b.prod_builder().term("TInt".to_string()).finish();
    let b = b.production("Term".to_string(), p, "v0".to_string());
    b.finish("Expr".to_string())
}

fn visitor() -> OcamlVisitor {
    OcamlVisitor::new(
        "type token = TInt of int | TPlus".to_string(),
        vec![
            ("Expr".to_string(), "int".to_string()),
            ("Term".to_string(), "int".to_string()),
        ],
        vec![("TInt".to_string(), "int".to_string())],
        "Expr".to_string(),
    )
}

fn pipeline() -> (Grammar, Table) {
    let g = sums();
    let s0 = g.pool().reverse_lookup("S0").unwrap();
    let graph = Graph::make(&g, StateSet::from_items(g.initial(s0)));
    let table = Table::from_graph(&graph).unwrap();
    (g, table)
}

#[test]
fn rendered_parser_holds_the_expected_shape() {
    let (g, table) = pipeline();
    assert!(table.check_against(&g));
    let v = visitor();
    let out = Render::new(&v, &table, &g).render();
    assert!(out.contains("let parse input"));
    assert!(out.contains("and node1 (_stack: stack) (input: token list) ="));
    assert!(out.contains("and goto_Expr (state: states) ="));
    assert!(out.contains("| StackValue_Term_TInt of (int)"));
    assert!(out.contains("| StackValue_Nonterm_Expr of (int)"));
    assert!(out.contains("TInt _value"));
    assert!(out.contains("let _value = (v0 + v2) in"));
    // the start reduction returns the parse result
    assert!(out.contains("       v0\n"));
}

#[test]
fn rendering_twice_gives_byte_identical_output() {
    let (g1, t1) = pipeline();
    let v1 = visitor();
    let out1 = Render::new(&v1, &t1, &g1).render();
    let (g2, t2) = pipeline();
    let v2 = visitor();
    let out2 = Render::new(&v2, &t2, &g2).render();
    assert_eq!(out1, out2);
}

#[test]
fn untyped_terminal_carries_no_stack_value() {
    let (g, table) = pipeline();
    let v = visitor();
    let out = Render::new(&v, &table, &g).render();
    // TPlus has no declared payload type
    assert!(!out.contains("StackValue_Term_TPlus"));
    assert!(out.contains("StackValue_None"));
}
