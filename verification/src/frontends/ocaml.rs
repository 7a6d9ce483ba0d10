//! The OCaml backend: renders the table as a family of mutually
//! recursive state functions over an explicit stack.

use vstd::prelude::*;
use vstd::string::StringExecFns;

use crate::frontends::{ctx_ok, Ctx, Visitor};
use crate::generator::Uid;
use crate::grammar::{tok_valid, Grammar, Token};
use crate::string_pool::{Id, Pool};
use crate::table::action_ok;
use crate::text::{dec_digits, push_usize, str_eq};

verus! {

/// Whether the association list binds `key`.
pub open spec fn has_key(m: Seq<(String, String)>, key: Seq<char>) -> bool {
    exists|i: int| 0 <= i < m.len() && (#[trigger] m[i]).0@ == key
}

/// The value of the first pair binding `key`, if any.
pub open spec fn assoc_find(m: Seq<(String, String)>, key: Seq<char>) -> Option<Seq<char>>
    decreases m.len(),
{
    if m.len() == 0 {
        None
    } else if m[0].0@ == key {
        Some(m[0].1@)
    } else {
        assoc_find(m.drop_first(), key)
    }
}

/// A value is found exactly when the key is bound.
pub proof fn lemma_assoc_find_has(m: Seq<(String, String)>, key: Seq<char>)
    ensures
        assoc_find(m, key) is Some <==> has_key(m, key),
    decreases m.len(),
{
    if m.len() > 0 {
        lemma_assoc_find_has(m.drop_first(), key);
        if m[0].0@ == key {
            assert(has_key(m, key)) by {
                assert((m[0]).0@ == key);
            }
        } else {
            if has_key(m.drop_first(), key) {
                let i = choose|i: int|
                    0 <= i < m.drop_first().len() && (#[trigger] m.drop_first()[i]).0@ == key;
                assert(m[i + 1] == m.drop_first()[i]);
            }
            if has_key(m, key) {
                let i = choose|i: int| 0 <= i < m.len() && (#[trigger] m[i]).0@ == key;
                assert(i > 0);
                assert(m.drop_first()[i - 1] == m[i]);
                assert(has_key(m.drop_first(), key));
            }
        }
    }
}

/// The value bound to `key` by the first matching pair, if any.
fn lookup<'x>(m: &'x Vec<(String, String)>, key: &str) -> (r: Option<&'x String>)
    ensures
        match r {
            Some(v) => assoc_find(m@, key@) == Some(v@),
            None => assoc_find(m@, key@) is None,
        },
        r.is_some() == has_key(m@, key@),
{
    proof {
        lemma_assoc_find_has(m@, key@);
        assert(m@.skip(0) =~= m@);
    }
    let n = m.len();
    for i in 0..n
        invariant
            n == m@.len(),
            assoc_find(m@, key@) == assoc_find(m@.skip(i as int), key@),
    {
        proof {
            assert(m@.skip(i as int)[0] == m@[i as int]);
        }
        if str_eq(m[i].0.as_str(), key) {
            proof {
                assert(assoc_find(m@.skip(i as int), key@) == Some(m@[i as int].1@));
                lemma_assoc_find_has(m@, key@);
            }
            return Some(&m[i].1);
        }
        proof {
            assert(m@.skip(i as int).drop_first() =~= m@.skip(i + 1));
        }
    }
    proof {
        assert(m@.skip(n as int).len() == 0);
        lemma_assoc_find_has(m@, key@);
    }
    None
}

/// The OCaml visitor: the prelude text, the value type of each
/// non-terminal and payload-carrying terminal, the host token type, and
/// the name of the start rule.
pub struct OcamlVisitor {
    prelude: String,
    non_terminal_types: Vec<(String, String)>,
    terminal_types: Vec<(String, String)>,
    token_type: String,
    entry_rule: String,
}

impl OcamlVisitor {
    /// The prelude text.
    pub closed spec fn prelude_s(&self) -> Seq<char> {
        self.prelude@
    }

    /// The non-terminal value types, by rule name.
    pub closed spec fn nt_types_s(&self) -> Seq<(String, String)> {
        self.non_terminal_types@
    }

    /// The terminal payload types, by terminal name.
    pub closed spec fn t_types_s(&self) -> Seq<(String, String)> {
        self.terminal_types@
    }

    /// The host token type name.
    pub closed spec fn token_type_s(&self) -> Seq<char> {
        self.token_type@
    }

    /// The name of the rule whose reduction returns the parse result.
    pub closed spec fn entry_rule_s(&self) -> Seq<char> {
        self.entry_rule@
    }

    /// Builds the visitor; the entry rule's value type names the type of
    /// the whole parse, so it must be among the non-terminal types.
    /// The synthetic start rule is added under that type, becomes the
    /// visitor's entry rule, and the host token type name is `token`.
    pub fn new(
        prelude: String,
        non_terminal_types: Vec<(String, String)>,
        terminal_types: Vec<(String, String)>,
        entry_rule: String,
    ) -> (r: OcamlVisitor)
        requires
            has_key(non_terminal_types@, entry_rule@),
        ensures
            r.prelude_s() == prelude@,
            r.t_types_s() == terminal_types@,
            r.token_type_s() == "token"@,
            r.entry_rule_s() == "S0"@,
            r.nt_types_s().len() == non_terminal_types@.len() + 1,
            forall|i: int|
                0 <= i < non_terminal_types@.len() ==> r.nt_types_s()[i]
                    == non_terminal_types@[i],
            r.nt_types_s().last().0@ == "S0"@,
            Some(r.nt_types_s().last().1@) == assoc_find(non_terminal_types@, entry_rule@),
    {
        let mut non_terminal_types = non_terminal_types;
        let entry_type = match lookup(&non_terminal_types, entry_rule.as_str()) {
            Some(t) => t.clone(),
            None => {
                proof {
                    lemma_assoc_find_has(non_terminal_types@, entry_rule@);
                    assert(false);
                }
                String::new()
            },
        };
        non_terminal_types.push((String::from_str("S0"), entry_type));
        OcamlVisitor {
            prelude,
            non_terminal_types,
            terminal_types,
            token_type: String::from_str("token"),
            entry_rule: String::from_str("S0"),
        }
    }
}

/// Appends the value type bound to `name`, or `unit` for a name that
/// carries none (which a well-typed grammar never reaches).
fn append_type(out: &mut String, m: &Vec<(String, String)>, name: &str)
    ensures
        final(out)@ == old(out)@ + type_text(m@, name@),
{
    match lookup(m, name) {
        Some(t) => out.append(t.as_str()),
        None => out.append("unit"),
    }
}

/// The text opening one state function.
pub open spec fn enter_state_text(state: Uid) -> Seq<char> {
    "  and node"@ + dec_digits(state as nat)
        + " (_stack: stack) (input: token list) =\n"@ + "    match input with\n"@
}

/// The text closing one state function.
pub open spec fn leave_state_text(state: Uid) -> Seq<char> {
    "     (* end state "@ + dec_digits(state as nat) + " *)\n"@
}

/// The text opening the match arm of one token: the terminal's pattern
/// (binding a payload when the terminal has a declared type), or the
/// empty-input pattern for Eof.
pub open spec fn enter_match_text(
    pool: Seq<Seq<char>>,
    t_types: Seq<(String, String)>,
    token: Token,
) -> Seq<char> {
    "    | "@ + match token {
        Token::Term(id) => "("@ + pool[id.idx()] + (if assoc_find(
            t_types,
            pool[id.idx()],
        ) is Some {
            " _value"@
        } else {
            Seq::<char>::empty()
        }) + ") as _head :: _input' -> begin\n"@,
        Token::Eof => "[] as _input' -> begin\n"@,
        _ => "_ -> begin\n"@,
    }
}

/// The text closing one match arm.
pub open spec fn leave_match_text() -> Seq<char> {
    "    end\n"@
}

/// The text of one emitted shift: push the frame and continue at the
/// successor state.
pub open spec fn visit_shift_text(
    pool: Seq<Seq<char>>,
    t_types: Seq<(String, String)>,
    token: Token,
    next_state: Uid,
) -> Seq<char> {
    "      let stack = (State_"@ + dec_digits(next_state as nat) + ", "@ + (if token
        == Token::Eof {
        "TermEof"@
    } else {
        "Term _head"@
    }) + ", "@ + (match token {
        Token::Term(id) => if assoc_find(t_types, pool[id.idx()]) is Some {
            "StackValue_Term_"@ + pool[id.idx()] + " _value"@
        } else {
            "StackValue_None"@
        },
        _ => "StackValue_None"@,
    }) + ") :: _stack in\n"@ + "      node"@ + dec_digits(next_state as nat)
        + " stack _input'\n"@
}

/// The text of the fallthrough error arm of one state.
pub open spec fn matching_error_text(state: Uid) -> Seq<char> {
    "    | _ -> raise (Parse_error (ErrUnexpectedToken ([], \"node"@ + dec_digits(state as nat)
        + "\", input) ))\n"@
}

/// The rows of one goto lookup, one per `(from, to)` pair.
pub open spec fn goto_rows_text(gotos: Seq<(Uid, Uid)>, n: int) -> Seq<char>
    decreases n,
{
    if n <= 0 {
        Seq::empty()
    } else {
        goto_rows_text(gotos, n - 1) + "    | State_"@ + dec_digits(gotos[n - 1].0 as nat)
            + " -> node"@ + dec_digits(gotos[n - 1].1 as nat) + ", State_"@ + dec_digits(
            gotos[n - 1].1 as nat,
        ) + "\n"@
    }
}

/// The text of one goto lookup function.
pub open spec fn visit_goto_text(
    pool: Seq<Seq<char>>,
    symbol: Id,
    gotos: Seq<(Uid, Uid)>,
) -> Seq<char> {
    "  and goto_"@ + pool[symbol.idx()] + " (state: states) = \n"@ + "    match state with\n"@
        + goto_rows_text(gotos, gotos.len() as int)
        + "    | _ -> raise_msg (\"couldn't match in "@ + pool[symbol.idx()] + "\")\n\n"@
}

/// Whether the popped frame of `t` carries a typed value.
pub open spec fn frame_typed(
    pool: Seq<Seq<char>>,
    t_types: Seq<(String, String)>,
    nt_types: Seq<(String, String)>,
    t: Token,
) -> bool {
    match t {
        Token::Term(id) => assoc_find(t_types, pool[id.idx()]) is Some,
        Token::NonTerm(id) => assoc_find(nt_types, pool[id.idx()]) is Some,
        _ => false,
    }
}

/// The token pattern of one popped frame.
pub open spec fn frame_pattern_text(
    pool: Seq<Seq<char>>,
    t_types: Seq<(String, String)>,
    t: Token,
) -> Seq<char> {
    match t {
        Token::Term(id) => "Term "@ + pool[id.idx()] + (if assoc_find(
            t_types,
            pool[id.idx()],
        ) is Some {
            " _"@
        } else {
            Seq::<char>::empty()
        }),
        Token::NonTerm(id) => "NonTerm NonTerm_"@ + pool[id.idx()],
        _ => "TermEof"@,
    }
}

/// The stack-value pattern of one popped frame.
pub open spec fn frame_value_text(
    pool: Seq<Seq<char>>,
    t_types: Seq<(String, String)>,
    nt_types: Seq<(String, String)>,
    t: Token,
) -> Seq<char> {
    if !frame_typed(pool, t_types, nt_types, t) {
        "StackValue_None -> ()"@
    } else {
        "StackValue_"@ + (match t {
            Token::NonTerm(_) => "Nonterm"@,
            _ => "Term"@,
        }) + "_"@ + (match t {
            Token::Term(id) => pool[id.idx()],
            Token::NonTerm(id) => pool[id.idx()],
            _ => Seq::<char>::empty(),
        }) + " v -> v"@
    }
}

/// The opening of one pop arm, up to the frame pattern.
pub open spec fn pop_arm_head_text(i: int) -> Seq<char> {
    "      let (_, typ, tmp), _stack = pop_stack _stack in\n"@ + "      let v"@ + dec_digits(
        i as nat,
    ) + " = (match typ, tmp with\n"@ + "      | "@
}

/// The closing of one pop arm, after the value pattern.
pub open spec fn pop_arm_tail_text(pool: Seq<Seq<char>>, i: int, t: Token) -> Seq<char> {
    "\n"@ + "      | _ -> raise_msg ( \"expected token "@ + (if crate::grammar::tok_valid(
        pool,
        t,
    ) {
        crate::grammar::token_text(pool, t)
    } else {
        Seq::<char>::empty()
    }) + "\" )) in\n"@ + "      ignore v"@ + dec_digits(i as nat) + ";\n"@
}

/// The text popping frame `i` of a reduction and binding `v<i>`.
pub open spec fn pop_arm_text(
    pool: Seq<Seq<char>>,
    t_types: Seq<(String, String)>,
    nt_types: Seq<(String, String)>,
    i: int,
    t: Token,
) -> Seq<char> {
    pop_arm_head_text(i) + frame_pattern_text(pool, t_types, t) + ", "@ + frame_value_text(
        pool,
        t_types,
        nt_types,
        t,
    ) + pop_arm_tail_text(pool, i, t)
}

/// The pops of a reduction from frame `i` up, emitted last frame first.
pub open spec fn pops_text(
    pool: Seq<Seq<char>>,
    t_types: Seq<(String, String)>,
    nt_types: Seq<(String, String)>,
    exp: Seq<Token>,
    i: int,
) -> Seq<char>
    decreases exp.len() - i,
{
    if i < 0 || i >= exp.len() {
        Seq::empty()
    } else {
        pops_text(pool, t_types, nt_types, exp, i + 1) + pop_arm_text(
            pool,
            t_types,
            nt_types,
            i,
            exp[i],
        )
    }
}

/// The semantic action of the first production `rule -> exp`.
pub open spec fn code_of(
    ents: Seq<crate::grammar::EntryView>,
    rule: Id,
    exp: Seq<Token>,
) -> Seq<char>
    decreases ents.len(),
{
    if ents.len() == 0 {
        Seq::empty()
    } else if ents[0].rule_name == rule && ents[0].tokens == exp {
        ents[0].code
    } else {
        code_of(ents.drop_first(), rule, exp)
    }
}

/// The text of one emitted reduction: the pops, the spliced action, and
/// either the parse result (for the start rule) or the goto jump.
pub open spec fn visit_reduce_text(
    pool: Seq<Seq<char>>,
    t_types: Seq<(String, String)>,
    nt_types: Seq<(String, String)>,
    ents: Seq<crate::grammar::EntryView>,
    entry_rule: Seq<char>,
    rule: Id,
    exp: Seq<Token>,
) -> Seq<char> {
    pops_text(pool, t_types, nt_types, exp, 0) + "      let _value = ("@ + code_of(
        ents,
        rule,
        exp,
    ) + ") in\n"@ + (if pool[rule.idx()] == entry_rule {
        "       v0\n"@
    } else {
        "      let (before, _, _) = List.hd _stack in\n"@ + "      let goto, goto_id = goto_"@
            + pool[rule.idx()] + " before in\n"@
            + "      let _stack = (goto_id, NonTerm NonTerm_"@ + pool[rule.idx()]
            + ", StackValue_Nonterm_"@ + pool[rule.idx()] + " _value) :: _stack in\n"@
            + "      goto _stack input\n"@
    })
}

/// Whether `idx` is the identifier of some rule name.
pub open spec fn is_rule_id(ents: Seq<crate::grammar::EntryView>, idx: int) -> bool {
    exists|j: int| 0 <= j < ents.len() && (#[trigger] ents[j]).rule_name.idx() == idx
}

/// Whether `idx` is the identifier of some terminal on a right-hand side.
pub open spec fn is_term_id(ents: Seq<crate::grammar::EntryView>, idx: int) -> bool {
    exists|j: int, q: int|
        0 <= j < ents.len() && 0 <= q < ents[j].tokens.len() && (#[trigger] ents[j].tokens[q])
            == Token::Term(Id(idx as usize))
}

/// The value type bound to `name`, or `unit` for a name that carries
/// none (which a well-typed grammar never reaches).
pub open spec fn type_text(m: Seq<(String, String)>, name: Seq<char>) -> Seq<char> {
    match assoc_find(m, name) {
        Some(t) => t,
        None => "unit"@,
    }
}

/// One state-constructor row per uid, in the given order.
pub open spec fn states_rows_text(all_states: Seq<Uid>, n: int) -> Seq<char>
    decreases n,
{
    if n <= 0 {
        Seq::empty()
    } else {
        states_rows_text(all_states, n - 1) + "       | State_"@ + dec_digits(
            all_states[n - 1] as nat,
        ) + "\n"@
    }
}

/// One stack-value constructor per rule name, ascending by identifier.
pub open spec fn nonterm_value_rows_text(
    pool: Seq<Seq<char>>,
    nt_types: Seq<(String, String)>,
    ents: Seq<crate::grammar::EntryView>,
    bound: int,
) -> Seq<char>
    decreases bound,
{
    if bound <= 0 {
        Seq::empty()
    } else {
        nonterm_value_rows_text(pool, nt_types, ents, bound - 1) + (if is_rule_id(
            ents,
            bound - 1,
        ) {
            "       | StackValue_Nonterm_"@ + pool[bound - 1] + " of ("@ + type_text(
                nt_types,
                pool[bound - 1],
            ) + ")\n"@
        } else {
            Seq::empty()
        })
    }
}

/// One stack-value constructor per typed terminal, ascending by
/// identifier.
pub open spec fn term_value_rows_text(
    pool: Seq<Seq<char>>,
    t_types: Seq<(String, String)>,
    ents: Seq<crate::grammar::EntryView>,
    bound: int,
) -> Seq<char>
    decreases bound,
{
    if bound <= 0 {
        Seq::empty()
    } else {
        term_value_rows_text(pool, t_types, ents, bound - 1) + (if is_term_id(ents, bound - 1)
            && assoc_find(t_types, pool[bound - 1]) is Some {
            "       | StackValue_Term_"@ + pool[bound - 1] + " of ("@ + type_text(
                t_types,
                pool[bound - 1],
            ) + ")\n"@
        } else {
            Seq::empty()
        })
    }
}

/// One non-terminal constructor per rule name, ascending by identifier.
pub open spec fn nonterm_rows_text(
    pool: Seq<Seq<char>>,
    ents: Seq<crate::grammar::EntryView>,
    bound: int,
) -> Seq<char>
    decreases bound,
{
    if bound <= 0 {
        Seq::empty()
    } else {
        nonterm_rows_text(pool, ents, bound - 1) + (if is_rule_id(ents, bound - 1) {
            "       | NonTerm_"@ + pool[bound - 1] + "\n"@
        } else {
            Seq::empty()
        })
    }
}

/// The whole preamble: the prelude, the error and state types, the
/// stack-value and non-terminal types, and the parser header.
pub open spec fn before_enter_text(
    prelude: Seq<char>,
    pool: Seq<Seq<char>>,
    nt_types: Seq<(String, String)>,
    t_types: Seq<(String, String)>,
    token_type: Seq<char>,
    ents: Seq<crate::grammar::EntryView>,
    all_states: Seq<Uid>,
) -> Seq<char> {
    "\n    (* Autogenerated file *)\n      "@ + prelude + "\n      type error_data =\n        | ErrMsg of string\n        | ErrUnexpectedToken of string list * string * token list\n      exception Parse_error of error_data\n\n      type states =\n"@
        + states_rows_text(all_states, all_states.len() as int) + "  type stack_value =\n"@
        + nonterm_value_rows_text(pool, nt_types, ents, pool.len() as int)
        + term_value_rows_text(pool, t_types, ents, pool.len() as int)
        + "       | StackValue_None\n"@ + "  type nonterm =\n"@ + nonterm_rows_text(
        pool,
        ents,
        pool.len() as int,
    ) + "  type token_type = Term of "@ + token_type + " | NonTerm of nonterm | TermEof\n"@
        + "  type stack = (states * token_type * stack_value) list\n"@ + "\n            let parse input =\n\n            let raise_msg m = raise (Parse_error (ErrMsg (m))) in\n            let pop msg = function\n              | [] -> raise_msg (msg)\n              | hd::tl -> hd, tl in\n            let pop_stack a = pop \"stack\" a in\n\n            let rec _hello = ()\n            \n"@
}

/// Whether `idx` names a rule: the identifier of some entry's left-hand
/// side.
fn has_rule_id(g: &Grammar, idx: usize) -> (r: bool)
    ensures
        r == is_rule_id(g.ents(), idx as int),
{
    let entries = g.entries();
    let n = entries.len();
    for j in 0..n
        invariant
            n == entries@.len(),
            n == g.ents().len(),
            forall|q: int| 0 <= q < n ==> (#[trigger] entries@[q])@ == g.ents()[q],
            forall|q: int| 0 <= q < j ==> (#[trigger] g.ents()[q]).rule_name.idx() != idx,
    {
        if entries[j].rule_name().0 == idx {
            proof {
                assert(g.ents()[j as int].rule_name.idx() == idx);
            }
            return true;
        }
    }
    false
}

/// Whether `idx` names a terminal on some right-hand side.
fn has_term_id(g: &Grammar, idx: usize) -> (r: bool)
    ensures
        r == is_term_id(g.ents(), idx as int),
{
    let entries = g.entries();
    let n = entries.len();
    for j in 0..n
        invariant
            n == entries@.len(),
            n == g.ents().len(),
            forall|q: int| 0 <= q < n ==> (#[trigger] entries@[q])@ == g.ents()[q],
            forall|q: int, t: int|
                0 <= q < j && 0 <= t < g.ents()[q].tokens.len() ==> (
                #[trigger] g.ents()[q].tokens[t]) != Token::Term(Id(idx)),
    {
        let toks = entries[j].tokens();
        let nt = toks.len();
        for t in 0..nt
            invariant
                j < n,
                n == g.ents().len(),
                toks@ == g.ents()[j as int].tokens,
                nt == toks@.len(),
                forall|q: int|
                    0 <= q < t ==> (#[trigger] g.ents()[j as int].tokens[q]) != Token::Term(
                        Id(idx),
                    ),
                forall|q: int, tt: int|
                    0 <= q < j && 0 <= tt < g.ents()[q].tokens.len() ==> (
                    #[trigger] g.ents()[q].tokens[tt]) != Token::Term(Id(idx)),
        {
            let hit = match toks[t] {
                Token::Term(id) => id.0 == idx,
                _ => false,
            };
            if hit {
                proof {
                    assert(g.ents()[j as int].tokens[t as int] == Token::Term(Id(idx)));
                }
                return true;
            }
        }
    }
    false
}

/// The text closing the parser: enter state 1 with the start frame.
pub open spec fn after_leave_text(pool: Seq<Seq<char>>, ents: Seq<crate::grammar::EntryView>) -> Seq<
    char,
> {
    "\n        in\n        node1 [ State_1, NonTerm NonTerm_"@ + pool[ents.last().rule_name.idx()]
        + ", StackValue_None ] input\n        \n"@
}

impl OcamlVisitor {
    /// Appends the arm popping frame `i` of a reduction.
    #[verifier::rlimit(100)]
    #[verifier::spinoff_prover]
    fn append_pop_arm(&self, pool: &Pool, out: &mut String, i: usize, token: Token)
        requires
            crate::grammar::tok_valid(pool@, token),
        ensures
            final(out)@ == old(out)@ + pop_arm_text(
                pool@,
                self.t_types_s(),
                self.nt_types_s(),
                i as int,
                token,
            ),
    {
        let ghost pre0 = out@;
        out.append("      let (_, typ, tmp), _stack = pop_stack _stack in\n");
        out.append("      let v");
        push_usize(out, i);
        out.append(" = (match typ, tmp with\n");
        out.append("      | ");
        proof {
            assert(out@ =~= pre0 + pop_arm_head_text(i as int));
        }
        let ghost c1 = out@;
        let mut typed_nonterm = false;
        let has_type: bool;
        match token {
            Token::Term(id) => {
                let name = pool.get(id);
                out.append("Term ");
                out.append(name);
                has_type = lookup(&self.terminal_types, name).is_some();
                if has_type {
                    out.append(" _");
                }
            },
            Token::NonTerm(id) => {
                let name = pool.get(id);
                out.append("NonTerm NonTerm_");
                out.append(name);
                has_type = lookup(&self.non_terminal_types, name).is_some();
                typed_nonterm = true;
            },
            // ε never stands in a right-hand side; Eof closes the
            // synthetic start production only
            Token::Empty | Token::Eof => {
                out.append("TermEof");
                has_type = false;
            },
        }
        proof {
            assert(out@ =~= c1 + frame_pattern_text(pool@, self.t_types_s(), token));
            assert(has_type == frame_typed(pool@, self.t_types_s(), self.nt_types_s(), token));
        }
        let ghost c2 = out@;
        out.append(", ");
        if !has_type {
            out.append("StackValue_None -> ()");
        } else {
            out.append("StackValue_");
            if typed_nonterm {
                out.append("Nonterm");
            } else {
                out.append("Term");
            }
            out.append("_");
            match token {
                Token::Term(id) => out.append(pool.get(id)),
                Token::NonTerm(id) => out.append(pool.get(id)),
                _ => (),
            }
            out.append(" v -> v");
        }
        proof {
            assert(out@ =~= c2 + ", "@ + frame_value_text(
                pool@,
                self.t_types_s(),
                self.nt_types_s(),
                token,
            ));
        }
        let ghost c3 = out@;
        out.append("\n");
        out.append("      | _ -> raise_msg ( \"expected token ");
        if crate::grammar::tok_valid_x(pool, &token) {
            token.display(pool).append_to(out);
        }
        out.append("\" )) in\n");
        out.append("      ignore v");
        push_usize(out, i);
        out.append(";\n");
        proof {
            assert(out@ =~= c3 + pop_arm_tail_text(pool@, i as int, token));
            assert(out@ =~= pre0 + pop_arm_text(
                pool@,
                self.t_types_s(),
                self.nt_types_s(),
                i as int,
                token,
            ));
        }
    }
}

impl Visitor for OcamlVisitor {
    open spec fn before_enter_text_of(&self, g: &Grammar, all_states: Seq<Uid>) -> Seq<char> {
        before_enter_text(
            self.prelude_s(),
            g.pool_v(),
            self.nt_types_s(),
            self.t_types_s(),
            self.token_type_s(),
            g.ents(),
            all_states,
        )
    }

    open spec fn after_leave_text_of(&self, g: &Grammar, all_states: Seq<Uid>) -> Seq<char> {
        after_leave_text(g.pool_v(), g.ents())
    }

    open spec fn begin_parse_loop_text_of(&self, g: &Grammar) -> Seq<char> {
        Seq::empty()
    }

    open spec fn end_parse_loop_text_of(&self, g: &Grammar) -> Seq<char> {
        Seq::empty()
    }

    open spec fn enter_state_text_of(&self, g: &Grammar, state: Uid) -> Seq<char> {
        enter_state_text(state)
    }

    open spec fn leave_state_text_of(&self, g: &Grammar, state: Uid) -> Seq<char> {
        leave_state_text(state)
    }

    open spec fn enter_match_text_of(&self, g: &Grammar, state: Uid, token: Token) -> Seq<char> {
        enter_match_text(g.pool_v(), self.t_types_s(), token)
    }

    open spec fn leave_match_text_of(&self, g: &Grammar, state: Uid, token: Token) -> Seq<char> {
        leave_match_text()
    }

    open spec fn visit_shift_text_of(
        &self,
        g: &Grammar,
        state: Uid,
        token: Token,
        next_state: Uid,
    ) -> Seq<char> {
        visit_shift_text(g.pool_v(), self.t_types_s(), token, next_state)
    }

    open spec fn visit_reduce_text_of(
        &self,
        g: &Grammar,
        state: Uid,
        token: Token,
        rule: Id,
        expansion: Seq<Token>,
    ) -> Seq<char> {
        visit_reduce_text(
            g.pool_v(),
            self.t_types_s(),
            self.nt_types_s(),
            g.ents(),
            self.entry_rule_s(),
            rule,
            expansion,
        )
    }

    open spec fn matching_error_text_of(
        &self,
        g: &Grammar,
        state: Uid,
        expected: Seq<Token>,
    ) -> Seq<char> {
        matching_error_text(state)
    }

    open spec fn visit_goto_text_of(
        &self,
        g: &Grammar,
        symbol: Id,
        gotos: Seq<(Uid, Uid)>,
    ) -> Seq<char> {
        visit_goto_text(g.pool_v(), symbol, gotos)
    }

    #[verifier::rlimit(100)]
    #[verifier::spinoff_prover]
    fn before_enter(&self, ctx: &Ctx, out: &mut String, all_states: &Vec<Uid>)
        ensures
            final(out)@ == old(out)@ + before_enter_text(
                self.prelude_s(),
                ctx.grammar.pool_v(),
                self.nt_types_s(),
                self.t_types_s(),
                self.token_type_s(),
                ctx.grammar.ents(),
                all_states@,
            ),
    {
        let ghost pre = out@;
        out.append("\n    (* Autogenerated file *)\n      ");
        out.append(self.prelude.as_str());
        out.append(
            "\n      type error_data =\n        | ErrMsg of string\n        | ErrUnexpectedToken of string list * string * token list\n      exception Parse_error of error_data\n\n      type states =\n",
        );
        let ghost h_states = out@;
        let ns = all_states.len();
        for i in 0..ns
            invariant
                ns == all_states@.len(),
                out@ == h_states + states_rows_text(all_states@, i as int),
        {
            out.append("       | State_");
            push_usize(out, all_states[i]);
            out.append("\n");
            proof {
                assert(out@ =~= h_states + states_rows_text(all_states@, i + 1));
            }
        }
        let grammar = ctx.grammar;
        out.append("  type stack_value =\n");
        // one stack-value constructor per rule, ascending by identifier
        let np = grammar.pool().len();
        let ghost h_nv = out@;
        for idx in 0..np
            invariant
                ctx_ok(ctx.grammar),
                grammar == ctx.grammar,
                np == grammar.pool_v().len(),
                out@ == h_nv + nonterm_value_rows_text(
                    grammar.pool_v(),
                    self.nt_types_s(),
                    grammar.ents(),
                    idx as int,
                ),
        {
            if has_rule_id(grammar, idx) {
                let name = grammar.pool().get(Id(idx));
                out.append("       | StackValue_Nonterm_");
                out.append(name);
                out.append(" of (");
                append_type(out, &self.non_terminal_types, name);
                out.append(")\n");
            }
            proof {
                assert(out@ =~= h_nv + nonterm_value_rows_text(
                    grammar.pool_v(),
                    self.nt_types_s(),
                    grammar.ents(),
                    idx + 1,
                ));
            }
        }
        // one stack-value constructor per typed terminal
        let ghost h_tv = out@;
        for idx in 0..np
            invariant
                ctx_ok(ctx.grammar),
                grammar == ctx.grammar,
                np == grammar.pool_v().len(),
                out@ == h_tv + term_value_rows_text(
                    grammar.pool_v(),
                    self.t_types_s(),
                    grammar.ents(),
                    idx as int,
                ),
        {
            if has_term_id(grammar, idx) {
                let name = grammar.pool().get(Id(idx));
                if let Some(typ) = lookup(&self.terminal_types, name) {
                    out.append("       | StackValue_Term_");
                    out.append(name);
                    out.append(" of (");
                    out.append(typ.as_str());
                    out.append(")\n");
                }
            }
            proof {
                assert(out@ =~= h_tv + term_value_rows_text(
                    grammar.pool_v(),
                    self.t_types_s(),
                    grammar.ents(),
                    idx + 1,
                ));
            }
        }
        out.append("       | StackValue_None\n");
        out.append("  type nonterm =\n");
        // one constructor per rule name
        let ghost h_nt = out@;
        for idx in 0..np
            invariant
                ctx_ok(ctx.grammar),
                grammar == ctx.grammar,
                np == grammar.pool_v().len(),
                out@ == h_nt + nonterm_rows_text(grammar.pool_v(), grammar.ents(), idx as int),
        {
            if has_rule_id(grammar, idx) {
                out.append("       | NonTerm_");
                out.append(grammar.pool().get(Id(idx)));
                out.append("\n");
            }
            proof {
                assert(out@ =~= h_nt + nonterm_rows_text(
                    grammar.pool_v(),
                    grammar.ents(),
                    idx + 1,
                ));
            }
        }
        out.append("  type token_type = Term of ");
        out.append(self.token_type.as_str());
        out.append(" | NonTerm of nonterm | TermEof\n");
        out.append("  type stack = (states * token_type * stack_value) list\n");
        out.append(
            "\n            let parse input =\n\n            let raise_msg m = raise (Parse_error (ErrMsg (m))) in\n            let pop msg = function\n              | [] -> raise_msg (msg)\n              | hd::tl -> hd, tl in\n            let pop_stack a = pop \"stack\" a in\n\n            let rec _hello = ()\n            \n",
        );
        proof {
            assert(out@ =~= pre + before_enter_text(
                self.prelude_s(),
                ctx.grammar.pool_v(),
                self.nt_types_s(),
                self.t_types_s(),
                self.token_type_s(),
                ctx.grammar.ents(),
                all_states@,
            ));
        }
    }

    fn after_leave(&self, ctx: &Ctx, out: &mut String, all_states: &Vec<Uid>)
        ensures
            final(out)@ == old(out)@ + after_leave_text(
                ctx.grammar.pool_v(),
                ctx.grammar.ents(),
            ),
    {
        let ghost pre = out@;
        let grammar = ctx.grammar;
        let entries = grammar.entries();
        out.append("\n        in\n        node1 [ State_1, NonTerm NonTerm_");
        let last = entries.len() - 1;
        proof {
            assert(grammar.ents()[last as int].rule_name.idx() < grammar.pool_v().len());
            assert(grammar.ents()[last as int] == grammar.ents().last());
        }
        out.append(grammar.pool().get(entries[last].rule_name()));
        out.append(", StackValue_None ] input\n        \n");
        proof {
            assert(out@ =~= pre + after_leave_text(ctx.grammar.pool_v(), ctx.grammar.ents()));
        }
    }

    fn begin_parse_loop(&self, ctx: &Ctx, out: &mut String)
        ensures
            final(out)@ == old(out)@,
    {
    }

    fn end_parse_loop(&self, ctx: &Ctx, out: &mut String)
        ensures
            final(out)@ == old(out)@,
    {
    }

    fn enter_state(&self, ctx: &Ctx, out: &mut String, state: Uid)
        ensures
            final(out)@ == old(out)@ + enter_state_text(state),
    {
        let ghost pre = out@;
        out.append("  and node");
        push_usize(out, state);
        out.append(" (_stack: stack) (input: token list) =\n");
        out.append("    match input with\n");
        proof {
            assert(out@ =~= pre + enter_state_text(state));
        }
    }

    fn leave_state(&self, ctx: &Ctx, out: &mut String, state: Uid)
        ensures
            final(out)@ == old(out)@ + leave_state_text(state),
    {
        let ghost pre = out@;
        out.append("     (* end state ");
        push_usize(out, state);
        out.append(" *)\n");
        proof {
            assert(out@ =~= pre + leave_state_text(state));
        }
    }

    fn enter_match(&self, ctx: &Ctx, out: &mut String, state: Uid, token: Token)
        ensures
            final(out)@ == old(out)@ + enter_match_text(
                ctx.grammar.pool_v(),
                self.t_types_s(),
                token,
            ),
    {
        let ghost pre = out@;
        out.append("    | ");
        match token {
            Token::Term(id) => {
                let name = ctx.grammar.pool().get(id);
                out.append("(");
                out.append(name);
                if lookup(&self.terminal_types, name).is_some() {
                    out.append(" _value");
                }
                out.append(") as _head :: _input' -> begin\n");
            },
            Token::Eof => {
                out.append("[] as _input' -> begin\n");
            },
            _ => {
                // a non-terminal or ε is never dispatched on
                out.append("_ -> begin\n");
            },
        }
        proof {
            assert(out@ =~= pre + enter_match_text(
                ctx.grammar.pool_v(),
                self.t_types_s(),
                token,
            ));
        }
    }

    fn leave_match(&self, ctx: &Ctx, out: &mut String, state: Uid, token: Token)
        ensures
            final(out)@ == old(out)@ + leave_match_text(),
    {
        let ghost pre = out@;
        out.append("    end\n");
        proof {
            assert(out@ =~= pre + leave_match_text());
        }
    }

    fn visit_shift(&self, ctx: &Ctx, out: &mut String, state: Uid, token: Token, next_state: Uid)
        ensures
            final(out)@ == old(out)@ + visit_shift_text(
                ctx.grammar.pool_v(),
                self.t_types_s(),
                token,
                next_state,
            ),
    {
        let ghost pre = out@;
        let has_data = match token {
            Token::Term(id) => {
                let name = ctx.grammar.pool().get(id);
                lookup(&self.terminal_types, name).is_some()
            },
            _ => false,
        };
        out.append("      let stack = (State_");
        push_usize(out, next_state);
        out.append(", ");
        if token == Token::Eof {
            out.append("TermEof");
        } else {
            out.append("Term _head");
        }
        out.append(", ");
        if has_data {
            out.append("StackValue_Term_");
            if let Token::Term(id) = token {
                out.append(ctx.grammar.pool().get(id));
            }
            out.append(" _value");
        } else {
            out.append("StackValue_None");
        }
        out.append(") :: _stack in\n");
        out.append("      node");
        push_usize(out, next_state);
        out.append(" stack _input'\n");
        proof {
            assert(out@ =~= pre + visit_shift_text(
                ctx.grammar.pool_v(),
                self.t_types_s(),
                token,
                next_state,
            ));
        }
    }

    #[verifier::rlimit(100)]
    #[verifier::spinoff_prover]
    fn visit_reduce(
        &self,
        ctx: &Ctx,
        out: &mut String,
        state: Uid,
        token: Token,
        rule: Id,
        expansion: &Vec<Token>,
    )
        ensures
            final(out)@ == old(out)@ + visit_reduce_text(
                ctx.grammar.pool_v(),
                self.t_types_s(),
                self.nt_types_s(),
                ctx.grammar.ents(),
                self.entry_rule_s(),
                rule,
                expansion@,
            ),
    {
        let ghost pre = out@;
        let grammar = ctx.grammar;
        let pool = grammar.pool();
        let rule_name = pool.get(rule);
        let n = expansion.len();
        let mut i: usize = n;
        proof {
            assert(pops_text(pool@, self.t_types_s(), self.nt_types_s(), expansion@, n as int)
                =~= Seq::<char>::empty());
        }
        while i > 0
            invariant
                ctx_ok(ctx.grammar),
                grammar == ctx.grammar,
                pool@ == grammar.pool_v(),
                n == expansion@.len(),
                i <= n,
                forall|j: int|
                    0 <= j < expansion@.len() ==> tok_valid(
                        grammar.pool_v(),
                        #[trigger] expansion@[j],
                    ),
                out@ == pre + pops_text(
                    pool@,
                    self.t_types_s(),
                    self.nt_types_s(),
                    expansion@,
                    i as int,
                ),
            decreases i,
        {
            i -= 1;
            let token = expansion[i];
            self.append_pop_arm(pool, out, i, token);
            proof {
                assert(out@ =~= pre + pops_text(
                    pool@,
                    self.t_types_s(),
                    self.nt_types_s(),
                    expansion@,
                    i as int,
                ));
            }
        }
        let ghost mid = out@;
        let code = find_code(grammar, rule, expansion);
        out.append("      let _value = (");
        out.append(code);
        out.append(") in\n");
        if str_eq(rule_name, self.entry_rule.as_str()) {
            out.append("       v0\n");
            proof {
                assert(out@ =~= pre + visit_reduce_text(
                    ctx.grammar.pool_v(),
                    self.t_types_s(),
                    self.nt_types_s(),
                    ctx.grammar.ents(),
                    self.entry_rule_s(),
                    rule,
                    expansion@,
                ));
            }
            return ;
        }
        out.append("      let (before, _, _) = List.hd _stack in\n");
        out.append("      let goto, goto_id = goto_");
        out.append(rule_name);
        out.append(" before in\n");
        out.append("      let _stack = (goto_id, NonTerm NonTerm_");
        out.append(rule_name);
        out.append(", StackValue_Nonterm_");
        out.append(rule_name);
        out.append(" _value) :: _stack in\n");
        out.append("      goto _stack input\n");
        proof {
            assert(out@ =~= pre + visit_reduce_text(
                ctx.grammar.pool_v(),
                self.t_types_s(),
                self.nt_types_s(),
                ctx.grammar.ents(),
                self.entry_rule_s(),
                rule,
                expansion@,
            ));
        }
    }

    fn matching_error(&self, ctx: &Ctx, out: &mut String, state: Uid, expected: &Vec<Token>)
        ensures
            final(out)@ == old(out)@ + matching_error_text(state),
    {
        let ghost pre = out@;
        out.append("    | _ -> raise (Parse_error (ErrUnexpectedToken ([], \"node");
        push_usize(out, state);
        out.append("\", input) ))\n");
        proof {
            assert(out@ =~= pre + matching_error_text(state));
        }
    }

    fn visit_goto(&self, ctx: &Ctx, out: &mut String, symbol: Id, gotos: &Vec<(Uid, Uid)>)
        ensures
            final(out)@ == old(out)@ + visit_goto_text(ctx.grammar.pool_v(), symbol, gotos@),
    {
        let ghost pre = out@;
        let name = ctx.grammar.pool().get(symbol);
        out.append("  and goto_");
        out.append(name);
        out.append(" (state: states) = \n");
        out.append("    match state with\n");
        let ghost head = out@;
        let n = gotos.len();
        for i in 0..n
            invariant
                n == gotos@.len(),
                out@ == head + goto_rows_text(gotos@, i as int),
        {
            let (from, to) = gotos[i];
            out.append("    | State_");
            push_usize(out, from);
            out.append(" -> node");
            push_usize(out, to);
            out.append(", State_");
            push_usize(out, to);
            out.append("\n");
            proof {
                assert(out@ =~= head + goto_rows_text(gotos@, i + 1));
            }
        }
        out.append("    | _ -> raise_msg (\"couldn't match in ");
        out.append(name);
        out.append("\")\n\n");
        proof {
            assert(out@ =~= pre + visit_goto_text(ctx.grammar.pool_v(), symbol, gotos@));
        }
    }
}

/// The semantic action of the first production `rule -> exp`.
fn find_code<'x>(g: &'x Grammar, rule: Id, exp: &Vec<Token>) -> (r: &'x str)
    requires
        exists|j: int|
            0 <= j < g.ents().len() && (#[trigger] g.ents()[j]).rule_name == rule
                && g.ents()[j].tokens == exp@,
    ensures
        r@ == code_of(g.ents(), rule, exp@),
{
    proof {
        assert(g.ents().skip(0) =~= g.ents());
    }
    let entries = g.entries();
    let n = entries.len();
    for j in 0..n
        invariant
            n == entries@.len(),
            n == g.ents().len(),
            forall|q: int| 0 <= q < n ==> (#[trigger] entries@[q])@ == g.ents()[q],
            exists|q: int|
                0 <= q < g.ents().len() && (#[trigger] g.ents()[q]).rule_name == rule
                    && g.ents()[q].tokens == exp@,
            code_of(g.ents(), rule, exp@) == code_of(g.ents().skip(j as int), rule, exp@),
            forall|q: int|
                0 <= q < j ==> !((#[trigger] g.ents()[q]).rule_name == rule && g.ents()[q].tokens
                    == exp@),
    {
        proof {
            assert(g.ents().skip(j as int)[0] == g.ents()[j as int]);
        }
        if entries[j].rule_name() == rule && crate::tokset::ts_seq_eq(entries[j].tokens(), exp) {
            proof {
                assert(code_of(g.ents().skip(j as int), rule, exp@) == g.ents()[j as int].code);
            }
            return entries[j].code();
        }
        proof {
            assert(g.ents().skip(j as int).drop_first() =~= g.ents().skip(j + 1));
        }
    }
    proof {
        assert(false);
    }
    ""
}

} // verus!
