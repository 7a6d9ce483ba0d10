//! Reading a parsed grammar specification: the hand-written parser for
//! the specification token stream, the conversion of the parsed form
//! into a grammar and a backend, and the specification format's own
//! grammar.

use vstd::prelude::*;

use crate::frontends::ocaml::{has_key, OcamlVisitor};
use crate::grammar::Grammar;
use crate::text::{lower_seq, str_chars, str_eq_ci};

pub mod ast;
pub mod lex;

verus! {

/// What can go wrong between specification text and grammar.
#[derive(Debug)]
pub enum SpecError {
    /// The lexer stopped: the position of the offending character.
    Lex(usize),
    /// The parser met a token (or the end of input) it cannot accept.
    UnexpectedToken { expected: Vec<String>, received: Option<lex::Token>, position: usize },
    /// A required configuration key is absent.
    MissingRequiredConfig(String),
    /// The `target` value names no known backend.
    UnsupportedTarget(String),
    /// The entry rule has no declared value type.
    MissingEntryType(String),
}

/// Whether some configuration pair binds `key`, up to ASCII case.
pub open spec fn cfg_has(cs: Seq<(String, String)>, key: Seq<char>) -> bool {
    exists|i: int| 0 <= i < cs.len() && lower_seq((#[trigger] cs[i]).0@) == lower_seq(key)
}

/// The value of the first configuration pair binding `key`, if any.
pub open spec fn cfg_find(cs: Seq<(String, String)>, key: Seq<char>) -> Option<Seq<char>>
    decreases cs.len(),
{
    if cs.len() == 0 {
        None
    } else if lower_seq(cs[0].0@) == lower_seq(key) {
        Some(cs[0].1@)
    } else {
        cfg_find(cs.drop_first(), key)
    }
}

/// A found value is a bound value, and one is found exactly when one is
/// bound.
pub proof fn lemma_cfg_find_has(cs: Seq<(String, String)>, key: Seq<char>)
    ensures
        cfg_find(cs, key) is Some <==> cfg_has(cs, key),
    decreases cs.len(),
{
    if cs.len() > 0 {
        lemma_cfg_find_has(cs.drop_first(), key);
        if lower_seq(cs[0].0@) == lower_seq(key) {
            assert(cfg_has(cs, key)) by {
                assert(lower_seq((cs[0]).0@) == lower_seq(key));
            }
        } else {
            if cfg_has(cs.drop_first(), key) {
                let i = choose|i: int|
                    0 <= i < cs.drop_first().len() && lower_seq(
                        (#[trigger] cs.drop_first()[i]).0@,
                    ) == lower_seq(key);
                assert(cs[i + 1] == cs.drop_first()[i]);
            }
            if cfg_has(cs, key) {
                let i = choose|i: int|
                    0 <= i < cs.len() && lower_seq((#[trigger] cs[i]).0@) == lower_seq(key);
                assert(i > 0);
                assert(cs.drop_first()[i - 1] == cs[i]);
                assert(cfg_has(cs.drop_first(), key));
            }
        }
    }
}

/// The value of the first configuration pair binding `key`, searching
/// case-insensitively.
fn find_ci<'x>(cs: &'x Vec<(String, String)>, key: &str) -> (r: Option<&'x String>)
    ensures
        match r {
            Some(v) => cfg_find(cs@, key@) == Some(v@),
            None => cfg_find(cs@, key@) is None,
        },
{
    let n = cs.len();
    proof {
        assert(cs@.skip(0) =~= cs@);
    }
    for i in 0..n
        invariant
            n == cs@.len(),
            cfg_find(cs@, key@) == cfg_find(cs@.skip(i as int), key@),
    {
        proof {
            assert(cs@.skip(i as int)[0] == cs@[i as int]);
        }
        if str_eq_ci(cs[i].0.as_str(), key) {
            proof {
                assert(cfg_find(cs@.skip(i as int), key@) == Some(cs@[i as int].1@));
            }
            return Some(&cs[i].1);
        }
        proof {
            assert(cs@.skip(i as int).drop_first() =~= cs@.skip(i + 1));
        }
    }
    proof {
        assert(cs@.skip(n as int).len() == 0);
    }
    None
}

fn expected_one(what: &str) -> (r: Vec<String>) {
    let mut v: Vec<String> = Vec::new();
    v.push(String::from_str(what));
    v
}

/// Whether some token is the identifier `name`.
pub open spec fn names_ident(toks: Seq<lex::Token>, name: Seq<char>) -> bool {
    exists|j: int| 0 <= j < toks.len() && (#[trigger] toks[j])@ == lex::TokView::Ident(name)
}

/// Whether some token is the literal `text`.
pub open spec fn names_literal(toks: Seq<lex::Token>, text: Seq<char>) -> bool {
    exists|j: int| 0 <= j < toks.len() && (#[trigger] toks[j])@ == lex::TokView::Literal(text)
}

/// Parses a specification token stream: configuration pairs
/// `key = value` first, then rules `name : { type } | ... { code } | ...`.
/// Every name and type of the result is taken verbatim from the stream,
/// and a non-empty stream that parses yields a non-empty specification.
pub fn parse(toks: &Vec<lex::Token>) -> (r: Result<ast::Spec, SpecError>)
    ensures
        match r {
            Ok(sp) => {
                &&& (toks@.len() > 0 ==> sp.configs@.len() + sp.rules@.len() > 0)
                &&& forall|c: int|
                    0 <= c < sp.configs@.len() ==> names_ident(
                        toks@,
                        (#[trigger] sp.configs@[c]).0@,
                    )
                &&& forall|rr: int|
                    0 <= rr < sp.rules@.len() ==> names_ident(
                        toks@,
                        (#[trigger] sp.rules@[rr]).name@,
                    )
                &&& forall|rr: int|
                    0 <= rr < sp.rules@.len() ==> names_literal(
                        toks@,
                        (#[trigger] sp.rules@[rr]).typ@,
                    )
            },
            Err(SpecError::UnexpectedToken { position, .. }) => position <= toks@.len(),
            Err(SpecError::Lex(_)) => false,
            _ => true,
        },
{
    let n = toks.len();
    let mut i: usize = 0;
    let mut configs: Vec<(String, String)> = Vec::new();
    while i < n
        invariant
            n == toks@.len(),
            i <= n,
            i == 3 * configs@.len(),
            forall|c: int|
                0 <= c < configs@.len() ==> names_ident(toks@, (#[trigger] configs@[c]).0@),
        decreases n - i,
    {
        if i + 1 >= n {
            break ;
        }
        let is_config = match (&toks[i], &toks[i + 1]) {
            (lex::Token::Ident(_), lex::Token::Equals) => true,
            _ => false,
        };
        if !is_config {
            break ;
        }
        let key = match &toks[i] {
            lex::Token::Ident(k) => k.clone(),
            _ => String::new(),
        };
        if i + 2 >= n {
            return Err(
                SpecError::UnexpectedToken {
                    expected: expected_one("an identifier or a literal"),
                    received: None,
                    position: i + 2,
                },
            );
        }
        let value = match &toks[i + 2] {
            lex::Token::Ident(s) => s.clone(),
            lex::Token::Literal(s) => s.clone(),
            other => {
                return Err(
                    SpecError::UnexpectedToken {
                        expected: expected_one("an identifier or a literal"),
                        received: Some(other.clone()),
                        position: i + 2,
                    },
                );
            },
        };
        proof {
            assert(toks@[i as int]@ == lex::TokView::Ident(key@));
        }
        let ghost pre_configs = configs@;
        configs.push((key, value));
        i += 3;
        proof {
            assert forall|c: int| 0 <= c < configs@.len() implies names_ident(
                toks@,
                (#[trigger] configs@[c]).0@,
            ) by {
                if c == configs@.len() - 1 {
                    assert(toks@[i - 3]@ == lex::TokView::Ident(configs@[c].0@));
                } else {
                    assert(configs@[c] == pre_configs[c]);
                }
            }
        }
    }
    let ghost nconf = configs@.len();
    let mut rules: Vec<ast::Rule> = Vec::new();
    while i < n
        invariant
            n == toks@.len(),
            i <= n,
            nconf == configs@.len(),
            i >= 3 * nconf,
            i > 3 * nconf ==> rules@.len() > 0,
            forall|rr: int|
                0 <= rr < rules@.len() ==> names_ident(toks@, (#[trigger] rules@[rr]).name@),
            forall|rr: int|
                0 <= rr < rules@.len() ==> names_literal(toks@, (#[trigger] rules@[rr]).typ@),
        decreases n - i,
    {
        let ghost name_pos = i as int;
        let name = match &toks[i] {
            lex::Token::Ident(s) => s.clone(),
            other => {
                return Err(
                    SpecError::UnexpectedToken {
                        expected: expected_one("a rule name"),
                        received: Some(other.clone()),
                        position: i,
                    },
                );
            },
        };
        i += 1;
        let colon_ok = i < n && match &toks[i] {
            lex::Token::Colon => true,
            _ => false,
        };
        if !colon_ok {
            return Err(
                SpecError::UnexpectedToken {
                    expected: expected_one(":"),
                    received: if i < n {
                        Some(toks[i].clone())
                    } else {
                        None
                    },
                    position: i,
                },
            );
        }
        i += 1;
        let ghost typ_pos = i as int;
        let typ = if i < n {
            match &toks[i] {
                lex::Token::Literal(s) => Some(s.clone()),
                _ => None,
            }
        } else {
            None
        };
        let typ = match typ {
            Some(t) => t,
            None => {
                return Err(
                    SpecError::UnexpectedToken {
                        expected: expected_one("a type literal"),
                        received: if i < n {
                            Some(toks[i].clone())
                        } else {
                            None
                        },
                        position: i,
                    },
                );
            },
        };
        i += 1;
        let ghost i_rule = i;
        let mut expansions: Vec<ast::Expansion> = Vec::new();
        while i < n
            invariant
                n == toks@.len(),
                i_rule <= i <= n,
            decreases n - i,
        {
            let pipe = match &toks[i] {
                lex::Token::Pipe => true,
                _ => false,
            };
            if !pipe {
                break ;
            }
            i += 1;
            let ghost i_case = i;
            let mut tokens: Vec<String> = Vec::new();
            while i < n
                invariant
                    n == toks@.len(),
                    i_rule < i_case <= i <= n,
                decreases n - i,
            {
                let id = match &toks[i] {
                    lex::Token::Ident(s) => Some(s.clone()),
                    _ => None,
                };
                match id {
                    Some(s) => {
                        tokens.push(s);
                        i += 1;
                    },
                    None => {
                        break ;
                    },
                }
            }
            let code = if i < n {
                match &toks[i] {
                    lex::Token::Literal(s) => Some(s.clone()),
                    _ => None,
                }
            } else {
                None
            };
            let code = match code {
                Some(c) => c,
                None => {
                    return Err(
                        SpecError::UnexpectedToken {
                            expected: expected_one("an action literal"),
                            received: if i < n {
                                Some(toks[i].clone())
                            } else {
                                None
                            },
                            position: i,
                        },
                    );
                },
            };
            i += 1;
            expansions.push(ast::Expansion { tokens, code });
        }
        proof {
            assert(toks@[name_pos]@ == lex::TokView::Ident(name@));
            assert(toks@[typ_pos]@ == lex::TokView::Literal(typ@));
        }
        let ghost pre_rules = rules@;
        rules.push(ast::Rule { name, typ, expansions });
        proof {
            assert forall|rr: int| 0 <= rr < rules@.len() implies names_ident(
                toks@,
                (#[trigger] rules@[rr]).name@,
            ) by {
                if rr == rules@.len() - 1 {
                    assert(toks@[name_pos]@ == lex::TokView::Ident(rules@[rr].name@));
                } else {
                    assert(rules@[rr] == pre_rules[rr]);
                }
            }
            assert forall|rr: int| 0 <= rr < rules@.len() implies names_literal(
                toks@,
                (#[trigger] rules@[rr]).typ@,
            ) by {
                if rr == rules@.len() - 1 {
                    assert(toks@[typ_pos]@ == lex::TokView::Literal(rules@[rr].typ@));
                } else {
                    assert(rules@[rr] == pre_rules[rr]);
                }
            }
        }
    }
    Ok(ast::Spec { rules, configs })
}

/// Whether some rule is named `name`.
pub open spec fn has_rule(rules: Seq<ast::Rule>, name: Seq<char>) -> bool {
    exists|i: int| 0 <= i < rules.len() && (#[trigger] rules[i]).name@ == name
}

/// The symbol names of one alternative.
pub open spec fn exp_tokens(e: ast::Expansion) -> Seq<Seq<char>> {
    Seq::new(e.tokens@.len(), |j: int| e.tokens@[j]@)
}

/// The productions one rule declares: `(rule name, symbols, code)`.
pub open spec fn rule_prods(r: ast::Rule) -> Seq<(Seq<char>, Seq<Seq<char>>, Seq<char>)> {
    Seq::new(
        r.expansions@.len(),
        |i: int| (r.name@, exp_tokens(r.expansions@[i]), r.expansions@[i].code@),
    )
}

/// All productions a specification declares, flattened in declaration
/// order.
pub open spec fn flat_prods(rules: Seq<ast::Rule>) -> Seq<(Seq<char>, Seq<Seq<char>>, Seq<char>)>
    decreases rules.len(),
{
    if rules.len() == 0 {
        Seq::empty()
    } else {
        flat_prods(rules.drop_last()) + rule_prods(rules.last())
    }
}

/// One grammar entry renders one declared production: same rule name,
/// same code, and one symbol per name, a non-terminal exactly for the
/// names that rules bear.
pub open spec fn entry_renders(
    pool: Seq<Seq<char>>,
    e: crate::grammar::EntryView,
    p: (Seq<char>, Seq<Seq<char>>, Seq<char>),
    rules: Seq<ast::Rule>,
) -> bool {
    &&& e.rule_name.idx() < pool.len()
    &&& pool[e.rule_name.idx()] == p.0
    &&& e.code == p.2
    &&& e.tokens.len() == p.1.len()
    &&& forall|j: int|
        0 <= j < p.1.len() ==> {
            let t = #[trigger] e.tokens[j];
            &&& crate::grammar::token_num(t) < pool.len()
            &&& pool[crate::grammar::token_num(t)] == p.1[j]
            &&& ((t is NonTerm) <==> has_rule(rules, p.1[j]))
            &&& ((t is Term) <==> !has_rule(rules, p.1[j]))
        }
}

/// The entry rule's name: the `entry` configuration value, or `ENTRY`.
pub open spec fn entry_name(cs: Seq<(String, String)>) -> Seq<char> {
    match cfg_find(cs, "entry"@) {
        Some(v) => v,
        None => "ENTRY"@,
    }
}

/// Turns a parsed specification into a grammar and the backend named by
/// its `target` configuration. A symbol is a non-terminal exactly when
/// some rule bears its name; all others are terminals. The grammar is
/// finished with the entry rule from the `entry` configuration (`ENTRY`
/// when absent).
pub fn spec_to_grammar(spec: ast::Spec) -> (r: Result<(Grammar, OcamlVisitor), SpecError>)
    ensures
        match r {
            Ok((g, v)) => {
                &&& g.wf()
                &&& v.token_type_s() == "token"@
                &&& v.entry_rule_s() == "S0"@
                &&& cfg_find(spec.configs@, "prelude"@) == Some(v.prelude_s())
                &&& cfg_has(spec.configs@, "target"@)
                &&& cfg_find(spec.configs@, "target"@) == Some("ocaml"@)
                &&& cfg_has(spec.configs@, "prelude"@)
                &&& has_rule(spec.rules@, entry_name(spec.configs@))
                // one entry per declared production, in order, then the
                // synthetic start production
                &&& g.ents().len() == flat_prods(spec.rules@).len() + 1
                &&& forall|p: int|
                    0 <= p < flat_prods(spec.rules@).len() ==> entry_renders(
                        g.pool_v(),
                        #[trigger] g.ents()[p],
                        flat_prods(spec.rules@)[p],
                        spec.rules@,
                    )
                &&& g.pool_v()[g.ents().last().rule_name.idx()] == "S0"@
                &&& g.ents().last().tokens.len() == 2
                &&& g.ents().last().tokens[0] is NonTerm
                &&& g.pool_v()[crate::grammar::token_num(g.ents().last().tokens[0])]
                    == entry_name(spec.configs@)
                &&& g.ents().last().tokens[1] == crate::grammar::Token::Eof
            },
            Err(e) => match e {
                SpecError::MissingRequiredConfig(k) => (k@ == "target"@ && !cfg_has(
                    spec.configs@,
                    "target"@,
                )) || (k@ == "prelude"@ && cfg_find(spec.configs@, "target"@) == Some("ocaml"@)
                    && !cfg_has(spec.configs@, "prelude"@)),
                SpecError::UnsupportedTarget(lang) => cfg_find(spec.configs@, "target"@) == Some(
                    lang@,
                ) && lang@ != "ocaml"@,
                SpecError::MissingEntryType(name) => {
                    &&& cfg_find(spec.configs@, "target"@) == Some("ocaml"@)
                    &&& cfg_has(spec.configs@, "prelude"@)
                    &&& name@ == entry_name(spec.configs@)
                    &&& !has_rule(spec.rules@, name@)
                },
                _ => false,
            },
        },
{
    // the declared rule names are the non-terminals, each with its type
    let mut non_term_types: Vec<(String, String)> = Vec::new();
    let nr = spec.rules.len();
    for ri in 0..nr
        invariant
            nr == spec.rules@.len(),
            non_term_types@.len() == ri,
            forall|q: int|
                0 <= q < ri ==> (#[trigger] non_term_types@[q]).0@ == spec.rules@[q].name@,
    {
        non_term_types.push((spec.rules[ri].name.clone(), spec.rules[ri].typ.clone()));
    }
    // build the productions, classifying each symbol
    let ghost rls = spec.rules@;
    let mut builder = Grammar::builder();
    proof {
        assert(flat_prods(rls.take(0)) =~= Seq::<(Seq<char>, Seq<Seq<char>>, Seq<char>)>::empty());
    }
    for ri in 0..nr
        invariant
            rls == spec.rules@,
            nr == rls.len(),
            builder.wf(),
            non_term_types@.len() == nr,
            forall|q: int|
                0 <= q < nr ==> (#[trigger] non_term_types@[q]).0@ == rls[q].name@,
            builder.ents().len() == flat_prods(rls.take(ri as int)).len(),
            forall|p: int|
                0 <= p < builder.ents().len() ==> entry_renders(
                    builder.pool_v(),
                    #[trigger] builder.ents()[p],
                    flat_prods(rls.take(ri as int))[p],
                    rls,
                ),
    {
        let ghost base = flat_prods(rls.take(ri as int)).len() as int;
        let ne = spec.rules[ri].expansions.len();
        for ei in 0..ne
            invariant
                rls == spec.rules@,
                nr == rls.len(),
                ri < nr,
                ne == rls[ri as int].expansions@.len(),
                builder.wf(),
                non_term_types@.len() == nr,
                forall|q: int|
                    0 <= q < nr ==> (#[trigger] non_term_types@[q]).0@ == rls[q].name@,
                base == flat_prods(rls.take(ri as int)).len(),
                builder.ents().len() == base + ei,
                forall|p: int|
                    0 <= p < base ==> entry_renders(
                        builder.pool_v(),
                        #[trigger] builder.ents()[p],
                        flat_prods(rls.take(ri as int))[p],
                        rls,
                    ),
                forall|q: int|
                    0 <= q < ei ==> entry_renders(
                        builder.pool_v(),
                        #[trigger] builder.ents()[base + q],
                        rule_prods(rls[ri as int])[q],
                        rls,
                    ),
        {
            let mut pb = builder.prod_builder();
            let nt = spec.rules[ri].expansions[ei].tokens.len();
            for ti in 0..nt
                invariant
                    rls == spec.rules@,
                    nr == rls.len(),
                    ri < nr,
                    ne == rls[ri as int].expansions@.len(),
                    ei < ne,
                    nt == rls[ri as int].expansions@[ei as int].tokens@.len(),
                    builder.wf(),
                    non_term_types@.len() == nr,
                    forall|q: int|
                        0 <= q < nr ==> (#[trigger] non_term_types@[q]).0@ == rls[q].name@,
                    base == flat_prods(rls.take(ri as int)).len(),
                    builder.ents().len() == base + ei,
                    forall|p: int|
                        0 <= p < base ==> entry_renders(
                            builder.pool_v(),
                            #[trigger] builder.ents()[p],
                            flat_prods(rls.take(ri as int))[p],
                            rls,
                        ),
                    forall|q: int|
                        0 <= q < ei ==> entry_renders(
                            builder.pool_v(),
                            #[trigger] builder.ents()[base + q],
                            rule_prods(rls[ri as int])[q],
                            rls,
                        ),
                    pb@.len() == ti,
                    forall|j: int|
                        0 <= j < ti ==> {
                            let nm = rls[ri as int].expansions@[ei as int].tokens@[j]@;
                            &&& ((#[trigger] pb@[j]).0 <==> !has_rule(rls, nm))
                            &&& pb@[j].1 == nm
                        },
            {
                let tok = spec.rules[ri].expansions[ei].tokens[ti].clone();
                let is_nt = name_is_rule(&non_term_types, tok.as_str());
                proof {
                    if is_nt {
                        let q = choose|q: int|
                            0 <= q < non_term_types@.len() && (#[trigger] non_term_types@[q]).0@
                                == tok@;
                        assert(rls[q].name@ == tok@);
                    } else {
                        assert forall|q: int| 0 <= q < rls.len() implies (#[trigger] rls[q]).name@
                            != tok@ by {
                            assert(non_term_types@[q].0@ == rls[q].name@);
                        }
                    }
                    assert(is_nt == has_rule(rls, tok@));
                }
                if is_nt {
                    pb = pb.non_term(tok);
                } else {
                    pb = pb.term(tok);
                }
            }
            let prod = pb.finish();
            let code = spec.rules[ri].expansions[ei].code.clone();
            let ghost pre_pool = builder.pool_v();
            let ghost pre_ents = builder.ents();
            builder = builder.production(spec.rules[ri].name.clone(), prod, code);
            proof {
                let rp = rule_prods(rls[ri as int])[ei as int];
                let e = builder.ents().last();
                assert(e.tokens.len() == rp.1.len());
                assert forall|j: int| 0 <= j < rp.1.len() implies {
                    let t = #[trigger] e.tokens[j];
                    &&& crate::grammar::token_num(t) < builder.pool_v().len()
                    &&& builder.pool_v()[crate::grammar::token_num(t)] == rp.1[j]
                    &&& ((t is NonTerm) <==> has_rule(rls, rp.1[j]))
                    &&& ((t is Term) <==> !has_rule(rls, rp.1[j]))
                } by {
                    assert(prod@[j].1 == rp.1[j]);
                    assert(prod@[j].0 <==> !has_rule(rls, rp.1[j]));
                }
                assert(entry_renders(builder.pool_v(), e, rp, rls));
                assert(builder.ents()[base + ei] == e) by {
                    assert(builder.ents().len() == base + ei + 1);
                }
                assert forall|p: int| 0 <= p < base implies entry_renders(
                    builder.pool_v(),
                    #[trigger] builder.ents()[p],
                    flat_prods(rls.take(ri as int))[p],
                    rls,
                ) by {
                    assert(builder.ents()[p] == pre_ents[p]);
                    assert(entry_renders(pre_pool, pre_ents[p], flat_prods(rls.take(ri as int))[p], rls));
                }
                assert forall|q: int| 0 <= q < ei + 1 implies entry_renders(
                    builder.pool_v(),
                    #[trigger] builder.ents()[base + q],
                    rule_prods(rls[ri as int])[q],
                    rls,
                ) by {
                    if q < ei {
                        assert(builder.ents()[base + q] == pre_ents[base + q]);
                        assert(entry_renders(pre_pool, pre_ents[base + q], rule_prods(rls[ri as int])[q], rls));
                    }
                }
            }
        }
        proof {
            assert(rls.take(ri + 1).drop_last() =~= rls.take(ri as int));
            assert(rls.take(ri + 1).last() == rls[ri as int]);
            assert(flat_prods(rls.take(ri + 1)) == flat_prods(rls.take(ri as int)) + rule_prods(
                rls[ri as int],
            ));
            assert forall|p: int| 0 <= p < builder.ents().len() implies entry_renders(
                builder.pool_v(),
                #[trigger] builder.ents()[p],
                flat_prods(rls.take(ri + 1))[p],
                rls,
            ) by {
                if p < base {
                    assert(flat_prods(rls.take(ri + 1))[p] == flat_prods(rls.take(ri as int))[p]);
                } else {
                    assert(flat_prods(rls.take(ri + 1))[p] == rule_prods(rls[ri as int])[p - base]);
                    assert(entry_renders(
                        builder.pool_v(),
                        builder.ents()[base + (p - base)],
                        rule_prods(rls[ri as int])[p - base],
                        rls,
                    ));
                }
            }
        }
    }
    proof {
        assert(rls.take(nr as int) =~= rls);
    }
    // configuration: entry, target, prelude; then the backend
    let entry_point = match find_ci(&spec.configs, "entry") {
        Some(v) => v.clone(),
        None => String::from_str("ENTRY"),
    };
    proof {
        assert(entry_point@ == entry_name(spec.configs@));
    }
    let language = match find_ci(&spec.configs, "target") {
        Some(v) => v.clone(),
        None => {
            proof {
                lemma_cfg_find_has(spec.configs@, "target"@);
            }
            return Err(SpecError::MissingRequiredConfig(String::from_str("target")));
        },
    };
    if !crate::text::str_eq(language.as_str(), "ocaml") {
        return Err(SpecError::UnsupportedTarget(language));
    }
    let prelude = match find_ci(&spec.configs, "prelude") {
        Some(v) => v.clone(),
        None => {
            proof {
                lemma_cfg_find_has(spec.configs@, "prelude"@);
            }
            return Err(SpecError::MissingRequiredConfig(String::from_str("prelude")));
        },
    };
    proof {
        lemma_cfg_find_has(spec.configs@, "target"@);
        lemma_cfg_find_has(spec.configs@, "prelude"@);
    }
    // terminals declared to carry a payload: `token_<NAME> = <type>`
    let mut term_types: Vec<(String, String)> = Vec::new();
    let nc = spec.configs.len();
    for ci in 0..nc
        invariant
            nc == spec.configs@.len(),
    {
        let key = &spec.configs[ci].0;
        if let Some(rest) = split_token_key(key.as_str()) {
            term_types.push((rest, spec.configs[ci].1.clone()));
        }
    }
    if !name_is_rule(&non_term_types, entry_point.as_str()) {
        proof {
            assert forall|i: int|
                0 <= i < spec.rules@.len() implies (#[trigger] spec.rules@[i]).name@
                != entry_point@ by {
                assert(non_term_types@[i].0@ == spec.rules@[i].name@);
            }
        }
        return Err(SpecError::MissingEntryType(entry_point));
    }
    proof {
        let i = choose|i: int|
            0 <= i < non_term_types@.len() && (#[trigger] non_term_types@[i]).0@ == entry_point@;
        assert(spec.rules@[i].name@ == entry_point@);
        assert(has_key(non_term_types@, entry_point@));
    }
    let ghost fin_pool = builder.pool_v();
    let ghost fin_ents = builder.ents();
    let grammar = builder.finish(entry_point.clone());
    proof {
        assert forall|p: int| 0 <= p < flat_prods(spec.rules@).len() implies entry_renders(
            grammar.pool_v(),
            #[trigger] grammar.ents()[p],
            flat_prods(spec.rules@)[p],
            spec.rules@,
        ) by {
            assert(grammar.ents()[p] == fin_ents[p]);
            assert(entry_renders(fin_pool, fin_ents[p], flat_prods(spec.rules@)[p], spec.rules@));
        }
    }
    let visitor = OcamlVisitor::new(prelude, non_term_types, term_types, entry_point);
    Ok((grammar, visitor))
}

/// Whether `name` is among the declared rule names.
fn name_is_rule(non_term_types: &Vec<(String, String)>, name: &str) -> (r: bool)
    ensures
        r == exists|i: int|
            0 <= i < non_term_types@.len() && (#[trigger] non_term_types@[i]).0@ == name@,
{
    let n = non_term_types.len();
    for i in 0..n
        invariant
            n == non_term_types@.len(),
            forall|k: int| 0 <= k < i ==> (#[trigger] non_term_types@[k]).0@ != name@,
    {
        if crate::text::str_eq(non_term_types[i].0.as_str(), name) {
            proof {
                assert((non_term_types@[i as int]).0@ == name@);
            }
            return true;
        }
    }
    false
}

/// The `<NAME>` of a configuration key `token_<NAME>` (case-insensitive
/// in `token`), if the key has that shape.
fn split_token_key(key: &str) -> (r: Option<String>) {
    let chars = str_chars(key);
    let n = chars.len();
    // find the first underscore
    for i in 0..n
        invariant
            n == chars@.len(),
    {
        if chars[i] == '_' {
            let mut head = String::new();
            let mut rest = String::new();
            for j in 0..i
                invariant
                    i < n,
                    n == chars@.len(),
            {
                crate::spec::lex::push_char(&mut head, chars[j]);
            }
            let mut j = i + 1;
            while j < n
                invariant
                    n == chars@.len(),
                    j <= n,
                decreases n - j,
            {
                crate::spec::lex::push_char(&mut rest, chars[j]);
                j += 1;
            }
            if str_eq_ci(head.as_str(), "token") {
                return Some(rest);
            }
            return None;
        }
    }
    None
}

/// The specification format's own grammar: configuration pairs followed
/// by rules, each rule a name, a type literal, and `|`-led alternatives.
pub fn own_grammar() -> (g: Grammar)
    ensures
        g.wf(),
        // fourteen declared productions and the synthetic start production
        g.ents().len() == 15,
        g.pool_v()[g.ents().last().rule_name.idx()] == "S0"@,
{
    let mut b = Grammar::builder();
    let mut pb = b.prod_builder();
    pb = pb.non_term(String::from_str("Configs"));
    pb = pb.non_term(String::from_str("Rules"));
    b = b.production(
        String::from_str("Grammar"),
        pb.finish(),
        String::from_str("Spec { rules: v1, configs: v0 }"),
    );
    let mut pb = b.prod_builder();
    pb = pb.non_term(String::from_str("Rules"));
    b = b.production(
        String::from_str("Grammar"),
        pb.finish(),
        String::from_str("Spec { rules: v0.into_iter().rev().collect(), configs: Vec::new() }"),
    );
    let mut pb = b.prod_builder();
    pb = pb.non_term(String::from_str("Configs"));
    pb = pb.non_term(String::from_str("Config"));
    b = b.production(
        String::from_str("Configs"),
        pb.finish(),
        String::from_str("{let mut v0 = v0; v0.push(v1); v0}"),
    );
    let mut pb = b.prod_builder();
    pb = pb.non_term(String::from_str("Config"));
    b = b.production(String::from_str("Configs"), pb.finish(), String::from_str("vec![v0]"));
    let mut pb = b.prod_builder();
    pb = pb.term(String::from_str("Ident"));
    pb = pb.term(String::from_str("Equals"));
    pb = pb.term(String::from_str("Ident"));
    b = b.production(String::from_str("Config"), pb.finish(), String::from_str("(v0, v2)"));
    let mut pb = b.prod_builder();
    pb = pb.term(String::from_str("Ident"));
    pb = pb.term(String::from_str("Equals"));
    pb = pb.term(String::from_str("Literal"));
    b = b.production(String::from_str("Config"), pb.finish(), String::from_str("(v0, v2)"));
    let mut pb = b.prod_builder();
    pb = pb.non_term(String::from_str("Rule"));
    pb = pb.non_term(String::from_str("Rules"));
    b = b.production(
        String::from_str("Rules"),
        pb.finish(),
        String::from_str("{let mut v = v1; v.push(v0); v}"),
    );
    let pb = b.prod_builder();
    b = b.production(String::from_str("Rules"), pb.finish(), String::from_str("Vec::new()"));
    let mut pb = b.prod_builder();
    pb = pb.term(String::from_str("Ident"));
    pb = pb.term(String::from_str("Colon"));
    pb = pb.term(String::from_str("Literal"));
    pb = pb.non_term(String::from_str("CaseList"));
    b = b.production(
        String::from_str("Rule"),
        pb.finish(),
        String::from_str("Rule {name: v0, typ: v2, expansions: v3}"),
    );
    let mut pb = b.prod_builder();
    pb = pb.non_term(String::from_str("Case"));
    pb = pb.non_term(String::from_str("CaseList"));
    b = b.production(
        String::from_str("CaseList"),
        pb.finish(),
        String::from_str("{let mut v = v1; v.push(v0); v}"),
    );
    let pb = b.prod_builder();
    b = b.production(String::from_str("CaseList"), pb.finish(), String::from_str("Vec::new()"));
    let mut pb = b.prod_builder();
    pb = pb.term(String::from_str("Pipe"));
    pb = pb.non_term(String::from_str("Idents"));
    pb = pb.term(String::from_str("Literal"));
    b = b.production(
        String::from_str("Case"),
        pb.finish(),
        String::from_str("Expansion {tokens: v1, code: v2}"),
    );
    let mut pb = b.prod_builder();
    pb = pb.non_term(String::from_str("Idents"));
    pb = pb.term(String::from_str("Ident"));
    b = b.production(
        String::from_str("Idents"),
        pb.finish(),
        String::from_str("{let mut v = v0; v.push(v1); v}"),
    );
    let pb = b.prod_builder();
    b = b.production(String::from_str("Idents"), pb.finish(), String::from_str("Vec::new()"));
    b.finish(String::from_str("Grammar"))
}

/// Parses specification text into a grammar and its backend. The text
/// must lex (a failure carries the first offending position); what the
/// lexer and parser accept is then converted as `spec_to_grammar` says,
/// so a successful result is a well-formed grammar ending in the
/// synthetic start production, paired with the named backend.
pub fn parse_string(s: &str) -> (r: Result<(Grammar, OcamlVisitor), SpecError>)
    ensures
        match r {
            Ok((g, v)) => {
                &&& lex::lex_spec(s@, 0) is Ok
                &&& g.wf()
                &&& g.ents().len() > 0
                &&& g.pool_v()[g.ents().last().rule_name.idx()] == "S0"@
                &&& g.ents().last().tokens.len() == 2
                &&& g.ents().last().tokens[0] is NonTerm
                &&& g.ents().last().tokens[1] == crate::grammar::Token::Eof
                &&& v.token_type_s() == "token"@
                &&& v.entry_rule_s() == "S0"@
            },
            Err(e) => match e {
                SpecError::Lex(p) => p < s@.len() && lex::lex_spec(s@, 0) == Err::<
                    Seq<lex::TokView>,
                    int,
                >(p as int),
                _ => lex::lex_spec(s@, 0) is Ok,
            },
        },
{
    let chars = str_chars(s);
    let toks = match lex::tokenize(&chars) {
        Ok(t) => t,
        Err(p) => {
            return Err(SpecError::Lex(p));
        },
    };
    let spec = match parse(&toks) {
        Ok(sp) => sp,
        Err(e) => {
            return Err(e);
        },
    };
    spec_to_grammar(spec)
}

} // verus!
