//! The arithmetic end-to-end scenarios: a minimal table-driven parser,
//! written here in the test alone, drives the generated action/goto
//! table over token streams and evaluates the semantic actions of the
//! arithmetic grammar.

use asterisk::generator::{Graph, StateSet, Uid};
use asterisk::grammar::{Grammar, Token};
use asterisk::string_pool::Id;
use asterisk::table::{Action, Table};

fn arith_scenario_grammar() -> Grammar {
    let mut b = Grammar::builder();
    let p = b
        .prod_builder()
        .non_term("B".to_string())
        .term("+".to_string())
        .non_term("A".to_string())
        .finish();
    let mut b = b.production("A".to_string(), p, "v0 + v2".to_string());
    let p = b.prod_builder().non_term("B".to_string()).finish();
    let mut b = b.production("A".to_string(), p, "v0".to_string());
    let p = b
        .prod_builder()
        .non_term("C".to_string())
        .term("*".to_string())
        .non_term("B".to_string())
        .finish();
    let mut b = b.production("B".to_string(), p, "v0 * v2".to_string());
    let p = b.prod_builder().non_term("C".to_string()).finish();
    let mut b = b.production("B".to_string(), p, "v0".to_string());
    let p = b
        .prod_builder()
        .term("(".to_string())
        .non_term("A".to_string())
        .term(")".to_string())
        .finish();
    let mut b = b.production("C".to_string(), p, "v1".to_string());
    let p = b.prod_builder().term("Int".to_string()).finish();
    let b = b.production("C".to_string(), p, "v0".to_string());
    b.finish("A".to_string())
}

/// One parse error: the state it arose in, the position of the
/// offending token (input length for end of input), and what would
/// have been accepted.
#[derive(Debug, PartialEq)]
struct ParseFailure {
    state: Uid,
    position: usize,
    expected: Vec<Token>,
}

/// The deterministic pushdown loop that every backend encodes: take the
/// action under the current token, shift or reduce, and return the
/// start rule's value.
fn drive(
    g: &Grammar,
    table: &Table,
    input: &[(Token, i64)],
) -> Result<i64, ParseFailure> {
    let s0 = g.pool().reverse_lookup("S0").unwrap();
    // stack frames: (state, tag, semantic value)
    let mut stack: Vec<(Uid, Token, i64)> = vec![(1, Token::Eof, 0)];
    let mut pos = 0usize;
    loop {
        let state = stack.last().unwrap().0;
        let lookahead = if pos < input.len() {
            input[pos].0
        } else {
            Token::Eof
        };
        let acts = table.entry(state).actions();
        let hit = acts.iter().find(|(t, _)| *t == lookahead);
        match hit {
            None => {
                return Err(ParseFailure {
                    state,
                    position: pos,
                    expected: acts.iter().map(|(t, _)| *t).collect(),
                });
            }
            Some((_, Action::Shift(next))) => {
                let value = if pos < input.len() { input[pos].1 } else { 0 };
                stack.push((*next, lookahead, value));
                pos += 1;
            }
            Some((_, Action::Reduce(rule, expansion))) => {
                let mut values = vec![0i64; expansion.len()];
                for i in (0..expansion.len()).rev() {
                    let (_, tag, value) = stack.pop().unwrap();
                    // the popped tag must replay the right-hand side
                    assert_eq!(tag, expansion[i]);
                    values[i] = value;
                }
                let value = eval(g, *rule, expansion, &values);
                if *rule == s0 {
                    return Ok(values[0]);
                }
                let below = stack.last().unwrap().0;
                let gotos = table.entry(below).gotos();
                let next = gotos.iter().find(|(id, _)| id == rule).unwrap().1;
                stack.push((next, Token::NonTerm(*rule), value));
            }
        }
    }
}

/// The semantic actions of the arithmetic grammar, by production.
fn eval(g: &Grammar, rule: Id, expansion: &[Token], values: &[i64]) -> i64 {
    let name = g.pool().get(rule);
    match (name, expansion.len()) {
        ("A", 3) => values[0] + values[2],
        ("A", 1) => values[0],
        ("B", 3) => values[0] * values[2],
        ("B", 1) => values[0],
        ("C", 3) => values[1],
        ("C", 1) => values[0],
        ("S0", _) => values[0],
        other => panic!("no action for {other:?}"),
    }
}

fn setup() -> (Grammar, Table) {
    let g = arith_scenario_grammar();
    let s0 = g.pool().reverse_lookup("S0").unwrap();
    let graph = Graph::make(&g, StateSet::from_items(g.initial(s0)));
    let table = Table::from_graph(&graph).unwrap();
    (g, table)
}

fn int_tok(g: &Grammar, v: i64) -> (Token, i64) {
    (Token::Term(g.pool().reverse_lookup("Int").unwrap()), v)
}

fn sym_tok(g: &Grammar, s: &str) -> (Token, i64) {
    (Token::Term(g.pool().reverse_lookup(s).unwrap()), 0)
}

#[test]
fn single_integer_parses_to_itself() {
    let (g, t) = setup();
    assert_eq!(drive(&g, &t, &[int_tok(&g, 3)]), Ok(3));
}

#[test]
fn sum_evaluates() {
    let (g, t) = setup();
    assert_eq!(drive(&g, &t, &[int_tok(&g, 2), sym_tok(&g, "+"), int_tok(&g, 3)]), Ok(5));
}

#[test]
fn product_binds_tighter_than_sum() {
    let (g, t) = setup();
    let input = [int_tok(&g, 2), sym_tok(&g, "*"), int_tok(&g, 3), sym_tok(&g, "+"), int_tok(&g, 4)];
    assert_eq!(drive(&g, &t, &input), Ok(10));
}

#[test]
fn parentheses_group() {
    let (g, t) = setup();
    let input = [
        sym_tok(&g, "("),
        int_tok(&g, 2),
        sym_tok(&g, "+"),
        int_tok(&g, 3),
        sym_tok(&g, ")"),
        sym_tok(&g, "*"),
        int_tok(&g, 4),
    ];
    assert_eq!(drive(&g, &t, &input), Ok(20));
}

#[test]
fn premature_end_of_input_is_rejected_where_it_occurs() {
    let (g, t) = setup();
    let failure = drive(&g, &t, &[int_tok(&g, 2), sym_tok(&g, "+")]).unwrap_err();
    // after `Int '+'` only '(' or Int may follow
    assert_eq!(failure.position, 2);
    let lp = Token::Term(g.pool().reverse_lookup("(").unwrap());
    let int_t = Token::Term(g.pool().reverse_lookup("Int").unwrap());
    assert_eq!(failure.expected, vec![lp, int_t]);
}

#[test]
fn leading_operator_is_rejected_in_the_start_state() {
    let (g, t) = setup();
    let failure = drive(&g, &t, &[sym_tok(&g, "+"), int_tok(&g, 2)]).unwrap_err();
    assert_eq!(failure.state, 1);
    assert_eq!(failure.position, 0);
    let lp = Token::Term(g.pool().reverse_lookup("(").unwrap());
    let int_t = Token::Term(g.pool().reverse_lookup("Int").unwrap());
    assert_eq!(failure.expected, vec![lp, int_t]);
}

#[test]
fn trailing_garbage_is_rejected_at_its_position() {
    let (g, t) = setup();
    let failure = drive(&g, &t, &[int_tok(&g, 1), int_tok(&g, 2)]).unwrap_err();
    assert_eq!(failure.position, 1);
}
