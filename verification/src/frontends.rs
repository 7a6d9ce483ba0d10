//! The emission framework: a driver that walks the action/goto table in
//! a canonical order and issues structured callbacks to a backend
//! visitor, which materialises the parser code.

use vstd::prelude::*;

use crate::generator::Uid;
use crate::grammar::{tok_valid, Grammar, Token};
use crate::string_pool::Id;
use crate::table::{action_ok, table_ok, Action, Table};

pub mod ocaml;

verus! {

/// What every callback may assume of the grammar it is handed.
pub open spec fn ctx_ok(g: &Grammar) -> bool {
    &&& g.wf()
    &&& g.ents().len() > 0
}

/// The context handed to every visitor callback.
pub struct Ctx<'a> {
    pub grammar: &'a Grammar,
}

/// The backend contract: one implementation per target language. Each
/// callback appends exactly the text its paired spec function gives, so
/// the driver's whole output is a function of the table, the grammar
/// and the visitor. The driver calls `before_enter` once, then one
/// `visit_goto` per non-terminal, then the parse loop bracket with one
/// `enter_state` / `leave_state` pair per state and one match bracket
/// per action, and `after_leave` once at the end.
pub trait Visitor {
    /// The preamble text.
    spec fn before_enter_text_of(&self, g: &Grammar, all_states: Seq<Uid>) -> Seq<char>;

    /// The postamble text.
    spec fn after_leave_text_of(&self, g: &Grammar, all_states: Seq<Uid>) -> Seq<char>;

    /// The text opening the dispatch loop.
    spec fn begin_parse_loop_text_of(&self, g: &Grammar) -> Seq<char>;

    /// The text closing the dispatch loop.
    spec fn end_parse_loop_text_of(&self, g: &Grammar) -> Seq<char>;

    /// The text opening one state.
    spec fn enter_state_text_of(&self, g: &Grammar, state: Uid) -> Seq<char>;

    /// The text closing one state.
    spec fn leave_state_text_of(&self, g: &Grammar, state: Uid) -> Seq<char>;

    /// The text opening one match arm.
    spec fn enter_match_text_of(&self, g: &Grammar, state: Uid, token: Token) -> Seq<char>;

    /// The text closing one match arm.
    spec fn leave_match_text_of(&self, g: &Grammar, state: Uid, token: Token) -> Seq<char>;

    /// The text of one emitted shift.
    spec fn visit_shift_text_of(&self, g: &Grammar, state: Uid, token: Token, next_state: Uid) -> Seq<char>;

    /// The text of one emitted reduction.
    spec fn visit_reduce_text_of(
        &self,
        g: &Grammar,
        state: Uid,
        token: Token,
        rule: Id,
        expansion: Seq<Token>,
    ) -> Seq<char>;

    /// The text of one fallthrough error branch.
    spec fn matching_error_text_of(&self, g: &Grammar, state: Uid, expected: Seq<Token>) -> Seq<char>;

    /// The text of one goto lookup.
    spec fn visit_goto_text_of(&self, g: &Grammar, symbol: Id, gotos: Seq<(Uid, Uid)>) -> Seq<char>;

    /// Preamble: type declarations and the parser prelude.
    fn before_enter(&self, ctx: &Ctx, out: &mut String, all_states: &Vec<Uid>)
        requires
            ctx_ok(ctx.grammar),
        ensures
            final(out)@ == old(out)@ + self.before_enter_text_of(ctx.grammar, all_states@),
    ;

    /// Postamble.
    fn after_leave(&self, ctx: &Ctx, out: &mut String, all_states: &Vec<Uid>)
        requires
            ctx_ok(ctx.grammar),
        ensures
            final(out)@ == old(out)@ + self.after_leave_text_of(ctx.grammar, all_states@),
    ;

    /// Opens the dispatch loop.
    fn begin_parse_loop(&self, ctx: &Ctx, out: &mut String)
        requires
            ctx_ok(ctx.grammar),
        ensures
            final(out)@ == old(out)@ + self.begin_parse_loop_text_of(ctx.grammar),
    ;

    /// Closes the dispatch loop.
    fn end_parse_loop(&self, ctx: &Ctx, out: &mut String)
        requires
            ctx_ok(ctx.grammar),
        ensures
            final(out)@ == old(out)@ + self.end_parse_loop_text_of(ctx.grammar),
    ;

    /// Starts the code of one state.
    fn enter_state(&self, ctx: &Ctx, out: &mut String, state: Uid)
        requires
            ctx_ok(ctx.grammar),
        ensures
            final(out)@ == old(out)@ + self.enter_state_text_of(ctx.grammar, state),
    ;

    /// Ends the code of one state.
    fn leave_state(&self, ctx: &Ctx, out: &mut String, state: Uid)
        requires
            ctx_ok(ctx.grammar),
        ensures
            final(out)@ == old(out)@ + self.leave_state_text_of(ctx.grammar, state),
    ;

    /// Starts the match arm for one terminal or Eof.
    fn enter_match(&self, ctx: &Ctx, out: &mut String, state: Uid, token: Token)
        requires
            ctx_ok(ctx.grammar),
            tok_valid(ctx.grammar.pool_v(), token),
        ensures
            final(out)@ == old(out)@ + self.enter_match_text_of(ctx.grammar, state, token),
    ;

    /// Ends the match arm for one terminal or Eof.
    fn leave_match(&self, ctx: &Ctx, out: &mut String, state: Uid, token: Token)
        requires
            ctx_ok(ctx.grammar),
            tok_valid(ctx.grammar.pool_v(), token),
        ensures
            final(out)@ == old(out)@ + self.leave_match_text_of(ctx.grammar, state, token),
    ;

    /// Emits a shift of `token` from `state` to `next_state`.
    fn visit_shift(&self, ctx: &Ctx, out: &mut String, state: Uid, token: Token, next_state: Uid)
        requires
            ctx_ok(ctx.grammar),
            tok_valid(ctx.grammar.pool_v(), token),
        ensures
            final(out)@ == old(out)@ + self.visit_shift_text_of(
                ctx.grammar,
                state,
                token,
                next_state,
            ),
    ;

    /// Emits a reduction by the production `rule -> expansion`: pop one
    /// frame per expansion symbol, bind the popped values by position,
    /// splice the production's code, push the result tagged by `rule`,
    /// and jump through `rule`'s goto.
    fn visit_reduce(
        &self,
        ctx: &Ctx,
        out: &mut String,
        state: Uid,
        token: Token,
        rule: Id,
        expansion: &Vec<Token>,
    )
        requires
            ctx_ok(ctx.grammar),
            tok_valid(ctx.grammar.pool_v(), token),
            action_ok(ctx.grammar, crate::table::ActionView::Reduce(rule, expansion@)),
            forall|j: int|
                0 <= j < expansion@.len() ==> tok_valid(
                    ctx.grammar.pool_v(),
                    #[trigger] expansion@[j],
                ),
        ensures
            final(out)@ == old(out)@ + self.visit_reduce_text_of(
                ctx.grammar,
                state,
                token,
                rule,
                expansion@,
            ),
    ;

    /// Emits the fallthrough error branch of one state, with the tokens
    /// that would have been accepted.
    fn matching_error(&self, ctx: &Ctx, out: &mut String, state: Uid, expected: &Vec<Token>)
        requires
            ctx_ok(ctx.grammar),
            forall|j: int|
                0 <= j < expected@.len() ==> tok_valid(
                    ctx.grammar.pool_v(),
                    #[trigger] expected@[j],
                ),
        ensures
            final(out)@ == old(out)@ + self.matching_error_text_of(ctx.grammar, state, expected@),
    ;

    /// Emits the goto lookup of one non-terminal, from the aggregated
    /// `(from-uid, to-uid)` pairs, ascending by from-uid.
    fn visit_goto(&self, ctx: &Ctx, out: &mut String, symbol: Id, gotos: &Vec<(Uid, Uid)>)
        requires
            ctx_ok(ctx.grammar),
            symbol.idx() < ctx.grammar.pool_v().len(),
        ensures
            final(out)@ == old(out)@ + self.visit_goto_text_of(ctx.grammar, symbol, gotos@),
    ;
}

/// The uids 1 through `n`, ascending.
pub open spec fn states_list(n: int) -> Seq<Uid> {
    Seq::new(n as nat, |k: int| (k + 1) as usize)
}

/// The `(from-uid, to-uid)` pairs for symbol `idx` among the first `e`
/// gotos of the state at position `k`.
pub open spec fn entry_pairs(gs: Seq<(Id, Uid)>, k: int, idx: int, e: int) -> Seq<(Uid, Uid)>
    decreases e,
{
    if e <= 0 {
        Seq::empty()
    } else {
        entry_pairs(gs, k, idx, e - 1) + (if gs[e - 1].0.idx() == idx {
            seq![((k + 1) as usize, gs[e - 1].1)]
        } else {
            Seq::empty()
        })
    }
}

/// The aggregated `(from-uid, to-uid)` pairs of symbol `idx` over the
/// first `k` states, from-uids ascending.
pub open spec fn sym_pairs(t: &Table, idx: int, k: int) -> Seq<(Uid, Uid)>
    decreases k,
{
    if k <= 0 {
        Seq::empty()
    } else {
        sym_pairs(t, idx, k - 1) + entry_pairs(
            t.entries_v()[k - 1].gotos_v(),
            k - 1,
            idx,
            t.entries_v()[k - 1].gotos_v().len() as int,
        )
    }
}

/// Whether any state's gotos mention symbol `idx`.
pub open spec fn table_mentions_sym(t: &Table, idx: int) -> bool {
    exists|k: int, e: int|
        0 <= k < t.n() && 0 <= e < t.entries_v()[k].gotos_v().len() && (
        #[trigger] t.entries_v()[k].gotos_v()[e]).0.idx() == idx
}

/// The goto lookups, one per mentioned non-terminal, ascending by
/// identifier up to `bound`.
pub open spec fn goto_section_text<V: Visitor>(
    v: &V,
    g: &Grammar,
    t: &Table,
    bound: int,
) -> Seq<char>
    decreases bound,
{
    if bound <= 0 {
        Seq::empty()
    } else {
        goto_section_text(v, g, t, bound - 1) + (if table_mentions_sym(t, bound - 1) {
            v.visit_goto_text_of(g, Id((bound - 1) as usize), sym_pairs(t, bound - 1, t.n()))
        } else {
            Seq::empty()
        })
    }
}

/// The tokens an action list accepts, in order.
pub open spec fn expected_of(acts: Seq<(Token, Action)>) -> Seq<Token> {
    Seq::new(acts.len(), |e: int| acts[e].0)
}

/// The match arms of one state, up to action `e`.
pub open spec fn acts_section_text<V: Visitor>(
    v: &V,
    g: &Grammar,
    state: Uid,
    acts: Seq<(Token, Action)>,
    e: int,
) -> Seq<char>
    decreases e,
{
    if e <= 0 {
        Seq::empty()
    } else {
        acts_section_text(v, g, state, acts, e - 1) + v.enter_match_text_of(g, state, acts[e - 1].0)
            + (match acts[e - 1].1 {
            Action::Reduce(rule, ts) => v.visit_reduce_text_of(g, state, acts[e - 1].0, rule, ts@),
            Action::Shift(next) => v.visit_shift_text_of(g, state, acts[e - 1].0, next),
        }) + v.leave_match_text_of(g, state, acts[e - 1].0)
    }
}

/// The per-state sections of the first `k` states, uids ascending.
pub open spec fn states_section_text<V: Visitor>(v: &V, g: &Grammar, t: &Table, k: int) -> Seq<char>
    decreases k,
{
    if k <= 0 {
        Seq::empty()
    } else {
        let acts = t.entries_v()[k - 1].acts_v();
        states_section_text(v, g, t, k - 1) + v.enter_state_text_of(g, k as usize)
            + acts_section_text(v, g, k as usize, acts, acts.len() as int)
            + v.matching_error_text_of(g, k as usize, expected_of(acts)) + v.leave_state_text_of(
            g,
            k as usize,
        )
    }
}

/// The whole rendered parser: the preamble, the goto lookups, the parse
/// loop over all states, and the postamble.
pub open spec fn render_text<V: Visitor>(v: &V, t: &Table, g: &Grammar) -> Seq<char> {
    v.before_enter_text_of(g, states_list(t.n())) + goto_section_text(
        v,
        g,
        t,
        g.pool_v().len() as int,
    ) + v.begin_parse_loop_text_of(g) + states_section_text(v, g, t, t.n())
        + v.end_parse_loop_text_of(g) + v.after_leave_text_of(g, states_list(t.n()))
}

/// Whether any state's gotos mention symbol `idx`.
fn mentions_sym(t: &Table, idx: usize) -> (r: bool)
    ensures
        r == table_mentions_sym(t, idx as int),
{
    let n = t.node_count();
    for k in 0..n
        invariant
            n == t.n(),
            forall|q: int, e: int|
                0 <= q < k && 0 <= e < t.entries_v()[q].gotos_v().len() ==> (
                #[trigger] t.entries_v()[q].gotos_v()[e]).0.idx() != idx,
    {
        let gs = t.entry(k + 1).gotos();
        let m = gs.len();
        for e in 0..m
            invariant
                n == t.n(),
                k < n,
                gs@ == t.entries_v()[k as int].gotos_v(),
                m == gs@.len(),
                forall|ee: int|
                    0 <= ee < e ==> (#[trigger] t.entries_v()[k as int].gotos_v()[ee]).0.idx()
                        != idx,
        {
            if gs[e].0.0 == idx {
                proof {
                    assert((t.entries_v()[k as int].gotos_v()[e as int]).0.idx() == idx);
                }
                return true;
            }
        }
    }
    false
}

/// Collects the `(from-uid, to-uid)` pairs of symbol `idx`, states
/// ascending.
fn collect_pairs(t: &Table, idx: usize) -> (r: Vec<(Uid, Uid)>)
    ensures
        r@ == sym_pairs(t, idx as int, t.n()),
{
    let n = t.node_count();
    let mut pairs: Vec<(Uid, Uid)> = Vec::new();
    proof {
        assert(pairs@ =~= sym_pairs(t, idx as int, 0));
    }
    for k in 0..n
        invariant
            n == t.n(),
            pairs@ == sym_pairs(t, idx as int, k as int),
    {
        let gs = t.entry(k + 1).gotos();
        let m = gs.len();
        let ghost head = pairs@;
        for e in 0..m
            invariant
                n == t.n(),
                k < n,
                gs@ == t.entries_v()[k as int].gotos_v(),
                m == gs@.len(),
                pairs@ == head + entry_pairs(gs@, k as int, idx as int, e as int),
        {
            let (id, to) = gs[e];
            if id.0 == idx {
                pairs.push((k + 1, to));
            }
            proof {
                assert(pairs@ =~= head + entry_pairs(gs@, k as int, idx as int, e + 1));
            }
        }
        proof {
            assert(pairs@ =~= sym_pairs(t, idx as int, k + 1));
        }
    }
    pairs
}

/// The driver: renders the whole table through a visitor, walking
/// states in ascending uid, actions in ascending token order, and gotos
/// aggregated per non-terminal in ascending identifier order.
pub struct Render<'a, V: Visitor> {
    table: &'a Table,
    grammar: &'a Grammar,
    v: &'a V,
}

impl<'a, V: Visitor> Render<'a, V> {
    /// The table being rendered.
    pub closed spec fn table_s(&self) -> &'a Table {
        self.table
    }

    /// The grammar being rendered.
    pub closed spec fn grammar_s(&self) -> &'a Grammar {
        self.grammar
    }

    /// The backend doing the rendering.
    pub closed spec fn v_s(&self) -> &'a V {
        self.v
    }

    /// Pairs a backend with the table and grammar to render.
    pub fn new(v: &'a V, table: &'a Table, grammar: &'a Grammar) -> (r: Render<'a, V>)
        ensures
            r.table_s() == table,
            r.grammar_s() == grammar,
    {
        Render { v, table, grammar }
    }

    /// Renders the generated parser.
    pub fn render(&self) -> (r: String)
        requires
            ctx_ok(self.grammar_s()),
            table_ok(self.table_s(), self.grammar_s()),
        ensures
            r@ == render_text(self.v_s(), self.table_s(), self.grammar_s()),
    {
        let ctx = Ctx { grammar: self.grammar };
        let v = self.v;
        let mut out = String::new();
        let n = self.table.node_count();
        let mut all_states: Vec<Uid> = Vec::new();
        proof {
            assert(all_states@ =~= states_list(0));
        }
        for k in 0..n
            invariant
                n == self.table_s().n(),
                all_states@ == states_list(k as int),
        {
            all_states.push(k + 1);
            proof {
                assert(all_states@ =~= states_list(k + 1));
            }
        }
        v.before_enter(&ctx, &mut out, &all_states);
        // the goto lookups, one per mentioned non-terminal, ascending
        let ghost h_goto = out@;
        let np = self.grammar.pool().len();
        for idx in 0..np
            invariant
                n == self.table_s().n(),
                np == self.grammar_s().pool_v().len(),
                ctx_ok(self.grammar_s()),
                table_ok(self.table_s(), self.grammar_s()),
                ctx.grammar == self.grammar_s(),
                v == self.v_s(),
                out@ == h_goto + goto_section_text(
                    self.v_s(),
                    self.grammar_s(),
                    self.table_s(),
                    idx as int,
                ),
        {
            if mentions_sym(self.table, idx) {
                let pairs = collect_pairs(self.table, idx);
                v.visit_goto(&ctx, &mut out, Id(idx), &pairs);
            }
            proof {
                assert(out@ =~= h_goto + goto_section_text(
                    self.v_s(),
                    self.grammar_s(),
                    self.table_s(),
                    idx + 1,
                ));
            }
        }
        v.begin_parse_loop(&ctx, &mut out);
        // states in ascending uid; actions in ascending token order
        let ghost h_states = out@;
        for k in 0..n
            invariant
                n == self.table_s().n(),
                ctx_ok(self.grammar_s()),
                table_ok(self.table_s(), self.grammar_s()),
                ctx.grammar == self.grammar_s(),
                v == self.v_s(),
                out@ == h_states + states_section_text(
                    self.v_s(),
                    self.grammar_s(),
                    self.table_s(),
                    k as int,
                ),
        {
            let uid = k + 1;
            v.enter_state(&ctx, &mut out, uid);
            let acts = self.table.entry(uid).actions();
            let m = acts.len();
            let ghost h_acts = out@;
            for e in 0..m
                invariant
                    n == self.table_s().n(),
                    k < n,
                    uid == k + 1,
                    ctx_ok(self.grammar_s()),
                    table_ok(self.table_s(), self.grammar_s()),
                    ctx.grammar == self.grammar_s(),
                    v == self.v_s(),
                    acts@ == self.table_s().entries_v()[k as int].acts_v(),
                    m == acts@.len(),
                    out@ == h_acts + acts_section_text(
                        self.v_s(),
                        self.grammar_s(),
                        uid,
                        acts@,
                        e as int,
                    ),
            {
                let (tok, action) = &acts[e];
                proof {
                    assert(tok_valid(
                        self.grammar_s().pool_v(),
                        (self.table_s().entries_v()[k as int].acts_v()[e as int]).0,
                    ));
                    assert(action_ok(
                        self.grammar_s(),
                        (self.table_s().entries_v()[k as int].acts_v()[e as int]).1@,
                    ));
                }
                v.enter_match(&ctx, &mut out, uid, *tok);
                match action {
                    Action::Reduce(rule, expansion) => {
                        proof {
                            let av = crate::table::ActionView::Reduce(*rule, expansion@);
                            assert(action_ok(self.grammar_s(), av));
                            let j = choose|j: int|
                                0 <= j < self.grammar_s().ents().len() && (
                                #[trigger] self.grammar_s().ents()[j]).rule_name == *rule
                                    && self.grammar_s().ents()[j].tokens == expansion@;
                            assert forall|q: int| 0 <= q < expansion@.len() implies tok_valid(
                                self.grammar_s().pool_v(),
                                #[trigger] expansion@[q],
                            ) by {
                                assert(crate::grammar::token_num(
                                    self.grammar_s().ents()[j].tokens[q],
                                ) < self.grammar_s().pool_v().len());
                            }
                        }
                        v.visit_reduce(&ctx, &mut out, uid, *tok, *rule, expansion);
                    },
                    Action::Shift(next_state) => {
                        v.visit_shift(&ctx, &mut out, uid, *tok, *next_state);
                    },
                }
                v.leave_match(&ctx, &mut out, uid, *tok);
                proof {
                    assert(out@ =~= h_acts + acts_section_text(
                        self.v_s(),
                        self.grammar_s(),
                        uid,
                        acts@,
                        e + 1,
                    ));
                }
            }
            // the tokens an input may legally show in this state
            let mut expected: Vec<Token> = Vec::new();
            for e in 0..m
                invariant
                    n == self.table_s().n(),
                    k < n,
                    ctx_ok(self.grammar_s()),
                    table_ok(self.table_s(), self.grammar_s()),
                    acts@ == self.table_s().entries_v()[k as int].acts_v(),
                    m == acts@.len(),
                    expected@.len() == e,
                    forall|q: int| 0 <= q < e ==> #[trigger] expected@[q] == acts@[q].0,
            {
                expected.push(acts[e].0);
            }
            proof {
                assert(expected@ =~= expected_of(acts@));
                assert forall|q: int| 0 <= q < expected@.len() implies tok_valid(
                    self.grammar_s().pool_v(),
                    #[trigger] expected@[q],
                ) by {
                    assert(expected@[q] == (self.table_s().entries_v()[k as int].acts_v()[q]).0);
                }
            }
            v.matching_error(&ctx, &mut out, uid, &expected);
            v.leave_state(&ctx, &mut out, uid);
            proof {
                assert(out@ =~= h_states + states_section_text(
                    self.v_s(),
                    self.grammar_s(),
                    self.table_s(),
                    k + 1,
                ));
            }
        }
        v.end_parse_loop(&ctx, &mut out);
        v.after_leave(&ctx, &mut out, &all_states);
        proof {
            assert(out@ =~= render_text(self.v_s(), self.table_s(), self.grammar_s()));
        }
        out
    }
}

} // verus!
