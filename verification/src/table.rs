//! The table synthesiser: converts the item-set graph into a per-state
//! table of shift/reduce actions and gotos, detecting shift/reduce and
//! reduce/reduce conflicts.

use vstd::prelude::*;

use crate::generator::{la_ok, Graph, ItemView, Uid};
use crate::grammar::{
    name_text_or_hole, tok_valid_x, token_before, token_lt, token_text_or_hole, Grammar, Token,
};
use crate::string_pool::{Id, Pool};
use crate::tokset::{toks, ts_copy};
use vstd::string::StringExecFns;

verus! {

/// A parse action: reduce by a production (rule and its right-hand
/// side), or shift to a state.
#[derive(Debug, Clone)]
pub enum Action {
    Reduce(Id, Vec<Token>),
    Shift(Uid),
}

/// An action as a mathematical value.
#[verifier::ext_equal]
pub enum ActionView {
    Reduce(Id, Seq<Token>),
    Shift(int),
}

impl View for Action {
    type V = ActionView;

    open spec fn view(&self) -> ActionView {
        match self {
            Action::Reduce(r, ts) => ActionView::Reduce(*r, ts@),
            Action::Shift(u) => ActionView::Shift(*u as int),
        }
    }
}

/// Decides equality of action values.
pub fn action_eq(a: &Action, b: &Action) -> (r: bool)
    ensures
        r == (a@ == b@),
{
    match (a, b) {
        (Action::Shift(x), Action::Shift(y)) => x == y,
        (Action::Reduce(r1, t1), Action::Reduce(r2, t2)) => {
            let r = *r1 == *r2 && crate::tokset::ts_seq_eq(t1, t2);
            proof {
                if r {
                    assert(a@ =~= b@);
                }
            }
            r
        },
        _ => false,
    }
}

/// Copies an action value.
pub fn action_copy(a: &Action) -> (r: Action)
    ensures
        r@ == a@,
{
    match a {
        Action::Shift(u) => Action::Shift(*u),
        Action::Reduce(rule, ts) => Action::Reduce(*rule, ts_copy(ts)),
    }
}

/// The display text of the first `n` expansion tokens, each preceded by
/// a space.
pub open spec fn expansion_text(pool: Seq<Seq<char>>, s: Seq<Token>, n: int) -> Seq<char>
    decreases n,
{
    if n <= 0 {
        Seq::empty()
    } else {
        expansion_text(pool, s, n - 1) + " "@ + token_text_or_hole(pool, s[n - 1])
    }
}

/// The display text of an action: a reduction as `rule -> tokens`, a
/// shift as `s<uid>`.
pub open spec fn action_text(pool: Seq<Seq<char>>, a: Action) -> Seq<char> {
    match a {
        Action::Reduce(r, ts) => name_text_or_hole(pool, r) + " ->"@ + expansion_text(
            pool,
            ts@,
            ts@.len() as int,
        ),
        Action::Shift(u) => "s"@ + crate::text::dec_digits(u as nat),
    }
}

/// An action paired with the pool that resolves its names.
pub struct ActionDisplay<'a> {
    action: &'a Action,
    pool: &'a Pool,
}

impl Action {
    /// Pairs the action with a pool for display.
    pub fn display<'a>(&'a self, pool: &'a Pool) -> (r: ActionDisplay<'a>)
        ensures
            r.action_s() == *self,
            r.pool_s() == pool@,
    {
        ActionDisplay { action: self, pool }
    }
}

impl<'a> ActionDisplay<'a> {
    /// The action being displayed.
    pub closed spec fn action_s(&self) -> Action {
        *self.action
    }

    /// The contents of the pool resolving its names.
    pub closed spec fn pool_s(&self) -> Seq<Seq<char>> {
        self.pool@
    }

    /// A reduction as `rule -> tokens`, a shift as `s<uid>`.
    pub fn render(&self) -> (r: String)
        ensures
            r@ == action_text(self.pool_s(), self.action_s()),
    {
        let mut out = String::new();
        match self.action {
            Action::Reduce(r, expansion) => {
                if r.0 < self.pool.len() {
                    out.append(self.pool.get(*r));
                } else {
                    out.append("?");
                }
                out.append(" ->");
                let ghost head = out@;
                let n = expansion.len();
                for e in 0..n
                    invariant
                        n == expansion@.len(),
                        out@ == head + expansion_text(self.pool_s(), expansion@, e as int),
                {
                    out.append(" ");
                    let t = expansion[e];
                    if tok_valid_x(self.pool, &t) {
                        t.display(self.pool).append_to(&mut out);
                    } else {
                        out.append("?");
                    }
                    proof {
                        assert(out@ =~= head + expansion_text(
                            self.pool_s(),
                            expansion@,
                            e + 1,
                        ));
                    }
                }
                proof {
                    assert(out@ =~= action_text(self.pool_s(), self.action_s()));
                }
            },
            Action::Shift(x) => {
                out.append("s");
                crate::text::push_usize(&mut out, *x);
                proof {
                    assert(out@ =~= action_text(self.pool_s(), self.action_s()));
                }
            },
        }
        out
    }
}

/// Two distinct actions claiming the same token in the same state.
#[derive(Debug, Clone)]
pub struct Conflict {
    pub token: Token,
    pub either: Action,
    pub or: Action,
    pub state: Uid,
}

/// The tokens under which a finished item reduces: its lookahead, or
/// Eof alone when the lookahead is empty (the synthetic start item).
pub open spec fn reduce_toks(it: ItemView) -> Set<Token> {
    if it.lookahead == Set::<Token>::empty() {
        Set::empty().insert(Token::Eof)
    } else {
        it.lookahead
    }
}

/// A shift action claimed by a transition of the state.
pub open spec fn shift_claim(es: Seq<(Token, Uid)>, t: Token, a: ActionView) -> bool {
    exists|e: int|
        0 <= e < es.len() && (#[trigger] es[e]).0 == t && (t is Term || t is Eof) && a
            == ActionView::Shift(es[e].1 as int)
}

/// A reduce action claimed by a finished item of the state.
pub open spec fn red_claim(s: Set<ItemView>, t: Token, a: ActionView) -> bool {
    exists|it: ItemView|
        #[trigger] s.contains(it) && it.after.len() == 0 && reduce_toks(it).contains(t) && a
            == ActionView::Reduce(it.rule, it.before)
}

/// Any action claimed for token `t` by the state holding `s` with
/// transitions `es`.
pub open spec fn is_claim(s: Set<ItemView>, es: Seq<(Token, Uid)>, t: Token, a: ActionView) -> bool {
    shift_claim(es, t, a) || red_claim(s, t, a)
}

/// Membership of an action under a token in an action list.
pub open spec fn has_act(acts: Seq<(Token, Action)>, t: Token, a: ActionView) -> bool {
    exists|e: int| 0 <= e < acts.len() && (#[trigger] acts[e]).0 == t && acts[e].1@ == a
}

/// Strictly ascending tokens: each token at most once, in order.
pub open spec fn acts_sorted(acts: Seq<(Token, Action)>) -> bool {
    forall|e1: int, e2: int|
        0 <= e1 < e2 < acts.len() ==> token_lt((#[trigger] acts[e1]).0, (#[trigger] acts[e2]).0)
}

/// Membership of a goto entry.
pub open spec fn has_goto(gs: Seq<(Id, Uid)>, id: Id, u: int) -> bool {
    exists|e: int| 0 <= e < gs.len() && (#[trigger] gs[e]).0 == id && gs[e].1 as int == u
}

/// The actions and gotos of one state.
#[derive(Debug)]
pub struct TableEntry {
    pub(crate) actions: Vec<(Token, Action)>,
    pub(crate) gotos: Vec<(Id, Uid)>,
}

impl TableEntry {
    /// The actions, keyed by token, in ascending token order.
    pub closed spec fn acts_v(&self) -> Seq<(Token, Action)> {
        self.actions@
    }

    /// The gotos, keyed by non-terminal, in ascending identifier order.
    pub closed spec fn gotos_v(&self) -> Seq<(Id, Uid)> {
        self.gotos@
    }

    /// The actions, keyed by token, in ascending token order.
    pub fn actions(&self) -> (r: &Vec<(Token, Action)>)
        ensures
            r@ == self.acts_v(),
    {
        &self.actions
    }

    /// The gotos, keyed by non-terminal, in ascending identifier order.
    pub fn gotos(&self) -> (r: &Vec<(Id, Uid)>)
        ensures
            r@ == self.gotos_v(),
    {
        &self.gotos
    }
}

/// The action/goto table: the entry at position `k` belongs to the state
/// with uid `k + 1`.
#[derive(Debug)]
pub struct Table {
    pub(crate) entries: Vec<TableEntry>,
}

impl Table {
    /// The entries, by uid minus one.
    pub closed spec fn entries_v(&self) -> Seq<TableEntry> {
        self.entries@
    }

    /// The number of states covered.
    pub open spec fn n(&self) -> int {
        self.entries_v().len() as int
    }

    /// The number of states covered.
    pub fn node_count(&self) -> (r: usize)
        ensures
            r == self.n(),
    {
        self.entries.len()
    }

    /// The entry of the state with uid `uid`.
    pub fn entry(&self, uid: Uid) -> (r: &TableEntry)
        requires
            1 <= uid <= self.n(),
        ensures
            *r == self.entries_v()[uid - 1],
    {
        &self.entries[uid - 1]
    }

    /// The table matches the graph: one entry per state; the actions of
    /// each state are exactly its claims, each token at most once, in
    /// token order; the gotos are exactly its non-terminal transitions.
    pub open spec fn matches(&self, g: &Graph) -> bool {
        &&& self.n() == g.n()
        &&& forall|k: int| 0 <= k < self.n() ==> acts_sorted((#[trigger] self.entries_v()[k]).acts_v())
        &&& forall|k: int, t: Token, a: ActionView|
            0 <= k < self.n() ==> (#[trigger] has_act(self.entries_v()[k].acts_v(), t, a)
                <==> is_claim(g.set_at(k), g.edges_v()[k], t, a))
        &&& forall|k: int, id: Id, u: int|
            0 <= k < self.n() ==> (#[trigger] has_goto(self.entries_v()[k].gotos_v(), id, u)
                <==> exists|e: int|
                0 <= e < g.edges_v()[k].len() && (#[trigger] g.edges_v()[k][e]).0
                    == Token::NonTerm(id) && g.edges_v()[k][e].1 as int == u)
    }
}

/// No two distinct actions are claimed for one `(state, token)` pair.
pub open spec fn conflict_free(g: &Graph) -> bool {
    forall|k: int, t: Token, a1: ActionView, a2: ActionView|
        #![trigger is_claim(g.set_at(k), g.edges_v()[k], t, a1), is_claim(g.set_at(k), g.edges_v()[k], t, a2)]
        0 <= k < g.n() && is_claim(g.set_at(k), g.edges_v()[k], t, a1) && is_claim(
            g.set_at(k),
            g.edges_v()[k],
            t,
            a2,
        ) ==> a1 == a2
}

/// The index in the sorted action list where token `t` belongs.
fn act_lower_bound(acts: &Vec<(Token, Action)>, t: &Token) -> (i: usize)
    ensures
        i <= acts@.len(),
        forall|k: int| 0 <= k < i ==> token_lt((#[trigger] acts@[k]).0, *t),
        i < acts@.len() ==> !token_lt(acts@[i as int].0, *t),
{
    let n = acts.len();
    for i in 0..n
        invariant
            n == acts@.len(),
            forall|k: int| 0 <= k < i ==> token_lt((#[trigger] acts@[k]).0, *t),
    {
        if !token_before(&acts[i].0, t) {
            return i;
        }
    }
    n
}

/// Inserts the claim `(t, a)` into the sorted action list; an equal
/// existing claim is kept, a different one under the same token is a
/// conflict.
#[verifier::rlimit(50)]
fn act_insert(acts: &mut Vec<(Token, Action)>, t: Token, a: Action) -> (r: Option<Action>)
    requires
        acts_sorted(old(acts)@),
    ensures
        match r {
            // conflict: a different action already claims `t`
            Some(other) => {
                &&& final(acts)@ == old(acts)@
                &&& has_act(old(acts)@, t, other@)
                &&& other@ != a@
            },
            None => {
                &&& acts_sorted(final(acts)@)
                &&& forall|t2: Token, a2: ActionView|
                    #[trigger] has_act(final(acts)@, t2, a2) <==> (has_act(old(acts)@, t2, a2)
                        || (t2 == t && a2 == a@))
            },
        },
{
    let i = act_lower_bound(acts, &t);
    let n = acts.len();
    if i < n && acts[i].0 == t {
        if action_eq(&acts[i].1, &a) {
            proof {
                assert(has_act(acts@, t, a@)) by {
                    assert((acts@[i as int]).0 == t && acts@[i as int].1@ == a@);
                }
                assert forall|t2: Token, a2: ActionView|
                    #[trigger] has_act(acts@, t2, a2) <==> (has_act(acts@, t2, a2) || (t2 == t
                        && a2 == a@)) by {}
            }
            return None;
        } else {
            let other = action_copy(&acts[i].1);
            proof {
                assert(has_act(acts@, t, other@)) by {
                    assert((acts@[i as int]).0 == t && acts@[i as int].1@ == other@);
                }
            }
            return Some(other);
        }
    }
    let ghost pre = acts@;
    acts.insert(i, (t, a));
    proof {
        pre.insert_ensures(i as int, (t, a));
        if i < pre.len() {
            crate::grammar::lemma_token_order(pre[i as int].0, t);
        }
        assert forall|x: int, y: int| 0 <= x < y < acts@.len() implies token_lt(
            (#[trigger] acts@[x]).0,
            (#[trigger] acts@[y]).0,
        ) by {
            if y < i {
                assert(acts@[x] == pre[x] && acts@[y] == pre[y]);
            } else if x > i {
                assert(acts@[x] == pre[x - 1] && acts@[y] == pre[y - 1]);
            } else if x < i && y == i {
                assert(acts@[x] == pre[x]);
            } else if x == i && y > i {
                assert(acts@[y] == pre[y - 1]);
                if i + 1 < y {
                    assert(token_lt(pre[i as int].0, pre[y - 1].0));
                }
            } else if x < i && y > i {
                assert(acts@[x] == pre[x] && acts@[y] == pre[y - 1]);
                assert(token_lt(pre[x].0, t));
                if i < y - 1 {
                    assert(token_lt(pre[i as int].0, pre[y - 1].0));
                }
            }
        }
        assert forall|t2: Token, a2: ActionView| #[trigger] has_act(acts@, t2, a2) implies (
        has_act(pre, t2, a2) || (t2 == t && a2 == a@)) by {
            let e = choose|e: int| 0 <= e < acts@.len() && (#[trigger] acts@[e]).0 == t2
                && acts@[e].1@ == a2;
            if e < i {
                assert(pre[e].0 == t2 && pre[e].1@ == a2);
            } else if e > i {
                assert(pre[e - 1].0 == t2 && pre[e - 1].1@ == a2);
            }
        }
        assert forall|t2: Token, a2: ActionView|
            (has_act(pre, t2, a2) || (t2 == t && a2 == a@)) implies #[trigger] has_act(
            acts@,
            t2,
            a2,
        ) by {
            if has_act(pre, t2, a2) {
                let e = choose|e: int| 0 <= e < pre.len() && (#[trigger] pre[e]).0 == t2
                    && pre[e].1@ == a2;
                if e < i {
                    assert((acts@[e]).0 == t2 && acts@[e].1@ == a2);
                } else {
                    assert((acts@[e + 1]).0 == t2 && acts@[e + 1].1@ == a2);
                }
            } else {
                assert((acts@[i as int]).0 == t2 && acts@[i as int].1@ == a2);
            }
        }
    }
    None
}

/// Table completeness: every shift or reduce the graph calls for stands
/// in the matching table, under its token, and nothing else does.
pub proof fn lemma_table_complete(
    t: &Table,
    g: &Graph,
    k: int,
    tok: Token,
    a: ActionView,
)
    requires
        t.matches(g),
        0 <= k < g.n(),
    ensures
        has_act(t.entries_v()[k].acts_v(), tok, a) <==> is_claim(
            g.set_at(k),
            g.edges_v()[k],
            tok,
            a,
        ),
{
}

/// Conflict freedom: on a graph the synthesiser accepts, no two
/// distinct actions claim the same `(state, token)` pair.
pub proof fn lemma_conflict_free(
    g: &Graph,
    k: int,
    tok: Token,
    a1: ActionView,
    a2: ActionView,
)
    requires
        conflict_free(g),
        0 <= k < g.n(),
        is_claim(g.set_at(k), g.edges_v()[k], tok, a1),
        is_claim(g.set_at(k), g.edges_v()[k], tok, a2),
    ensures
        a1 == a2,
{
}

/// A reduce action names an interned rule and one of the grammar's
/// productions; a shift is always acceptable.
pub open spec fn action_ok(g: &Grammar, a: ActionView) -> bool {
    match a {
        ActionView::Reduce(rule, exp) => {
            &&& rule.idx() < g.pool_v().len()
            &&& exists|j: int|
                0 <= j < g.ents().len() && (#[trigger] g.ents()[j]).rule_name == rule
                    && g.ents()[j].tokens == exp
        },
        ActionView::Shift(_) => true,
    }
}

/// Every name the table mentions is resolvable in the grammar, and every
/// reduction reduces by one of its productions.
pub open spec fn table_ok(t: &Table, g: &Grammar) -> bool {
    &&& forall|k: int, e: int|
        0 <= k < t.n() && 0 <= e < t.entries_v()[k].acts_v().len() ==> crate::grammar::tok_valid(
            g.pool_v(),
            (#[trigger] t.entries_v()[k].acts_v()[e]).0,
        )
    &&& forall|k: int, e: int|
        0 <= k < t.n() && 0 <= e < t.entries_v()[k].acts_v().len() ==> action_ok(
            g,
            (#[trigger] t.entries_v()[k].acts_v()[e]).1@,
        )
    &&& forall|k: int, e: int|
        0 <= k < t.n() && 0 <= e < t.entries_v()[k].gotos_v().len() ==> (
        #[trigger] t.entries_v()[k].gotos_v()[e]).0.idx() < g.pool_v().len()
}

/// Whether the grammar holds a production `rule -> exp`.
pub fn find_entry(g: &Grammar, rule: Id, exp: &Vec<Token>) -> (r: bool)
    ensures
        r == exists|j: int|
            0 <= j < g.ents().len() && (#[trigger] g.ents()[j]).rule_name == rule
                && g.ents()[j].tokens == exp@,
{
    let entries = g.entries();
    let n = entries.len();
    for j in 0..n
        invariant
            n == entries@.len(),
            n == g.ents().len(),
            forall|q: int| 0 <= q < n ==> (#[trigger] entries@[q])@ == g.ents()[q],
            forall|q: int|
                0 <= q < j ==> !((#[trigger] g.ents()[q]).rule_name == rule && g.ents()[q].tokens
                    == exp@),
    {
        if entries[j].rule_name() == rule && crate::tokset::ts_seq_eq(entries[j].tokens(), exp) {
            proof {
                assert(g.ents()[j as int].rule_name == rule && g.ents()[j as int].tokens == exp@);
            }
            return true;
        }
    }
    false
}

impl Table {
    /// Decides `table_ok`: whether this table only mentions names that
    /// `g` resolves and productions that `g` declares.
    pub fn check_against(&self, g: &Grammar) -> (r: bool)
        ensures
            r == table_ok(self, g),
    {
        let n = self.node_count();
        for k in 0..n
            invariant
                n == self.n(),
                forall|q: int, e: int|
                    0 <= q < k && 0 <= e < self.entries_v()[q].acts_v().len()
                        ==> crate::grammar::tok_valid(
                        g.pool_v(),
                        (#[trigger] self.entries_v()[q].acts_v()[e]).0,
                    ),
                forall|q: int, e: int|
                    0 <= q < k && 0 <= e < self.entries_v()[q].acts_v().len() ==> action_ok(
                        g,
                        (#[trigger] self.entries_v()[q].acts_v()[e]).1@,
                    ),
                forall|q: int, e: int|
                    0 <= q < k && 0 <= e < self.entries_v()[q].gotos_v().len() ==> (
                    #[trigger] self.entries_v()[q].gotos_v()[e]).0.idx() < g.pool_v().len(),
        {
            let te = self.entry(k + 1);
            let pool = g.pool();
            let na = te.actions.len();
            for e in 0..na
                invariant
                    n == self.n(),
                    k < n,
                    *te == self.entries_v()[k as int],
                    na == te.acts_v().len(),
                    forall|ee: int|
                        0 <= ee < e ==> crate::grammar::tok_valid(
                            g.pool_v(),
                            (#[trigger] te.acts_v()[ee]).0,
                        ),
                    forall|ee: int|
                        0 <= ee < e ==> action_ok(g, (#[trigger] te.acts_v()[ee]).1@),
            {
                let (t, a) = &te.actions[e];
                if !crate::grammar::tok_valid_x(g.pool(), t) {
                    return false;
                }
                match a {
                    Action::Reduce(rule, exp) => {
                        if rule.0 >= g.pool().len() {
                            return false;
                        }
                        if !find_entry(g, *rule, exp) {
                            return false;
                        }
                    },
                    Action::Shift(_) => {
                    },
                }
                proof {
                    assert(action_ok(g, te.acts_v()[e as int].1@));
                }
            }
            let ng = te.gotos.len();
            for e in 0..ng
                invariant
                    n == self.n(),
                    k < n,
                    *te == self.entries_v()[k as int],
                    ng == te.gotos_v().len(),
                    forall|ee: int|
                        0 <= ee < e ==> (#[trigger] te.gotos_v()[ee]).0.idx() < g.pool_v().len(),
            {
                let (id, _) = te.gotos[e];
                if id.0 >= g.pool().len() {
                    return false;
                }
            }
        }
        true
    }
}

/// Builds the actions and gotos of the state with uid `k + 1`, failing
/// on the first pair of distinct actions claiming one token.
#[verifier::rlimit(60)]
#[verifier::spinoff_prover]
fn state_entry(graph: &Graph, k: usize) -> (r: Result<TableEntry, Conflict>)
    requires
        graph.base_wf(),
        k < graph.n(),
    ensures
        match r {
            Ok(te) => {
                &&& acts_sorted(te.acts_v())
                &&& forall|t: Token, a: ActionView|
                    #[trigger] has_act(te.acts_v(), t, a) <==> is_claim(
                        graph.set_at(k as int),
                        graph.edges_v()[k as int],
                        t,
                        a,
                    )
                &&& forall|id: Id, u: int|
                    #[trigger] has_goto(te.gotos_v(), id, u) <==> exists|e: int|
                        0 <= e < graph.edges_v()[k as int].len()
                            && (#[trigger] graph.edges_v()[k as int][e]).0 == Token::NonTerm(id)
                            && graph.edges_v()[k as int][e].1 as int == u
            },
            Err(c) => {
                &&& c.state == k + 1
                &&& is_claim(graph.set_at(k as int), graph.edges_v()[k as int], c.token, c.either@)
                &&& is_claim(graph.set_at(k as int), graph.edges_v()[k as int], c.token, c.or@)
                &&& c.either@ != c.or@
            },
        },
{
    let nn = graph.node_count();
    let kk = k + 1;
    let ghost set = graph.set_at(k as int);
    let ghost es = graph.edges_v()[k as int];
    let sset = graph.set(k + 1);
    let mut acts: Vec<(Token, Action)> = Vec::new();
    let ni = sset.len();
    for i in 0..ni
        invariant
            graph.base_wf(),
            k < graph.n(),
            *sset == graph.sets_v()[k as int],
            set == graph.set_at(k as int),
            es == graph.edges_v()[k as int],
            ni == sset.seq_v().len(),
            kk == k + 1,
            acts_sorted(acts@),
            forall|t: Token, a: ActionView|
                #[trigger] has_act(acts@, t, a) <==> exists|ii: int|
                    0 <= ii < i && (#[trigger] sset.seq_v()[ii]).after.len() == 0 && reduce_toks(
                        sset.seq_v()[ii],
                    ).contains(t) && a == ActionView::Reduce(
                        sset.seq_v()[ii].rule,
                        sset.seq_v()[ii].before,
                    ),
    {
        let ghost itv = sset.seq_v()[i as int];
        let it = sset.index(i);
        if it.after().len() == 0 {
            let ghost av = ActionView::Reduce(itv.rule, itv.before);
            if it.lookahead().len() == 0 {
                proof {
                    assert(itv.lookahead =~= Set::<Token>::empty());
                    assert(reduce_toks(itv).contains(Token::Eof));
                }
                let a = Action::Reduce(it.rule(), ts_copy(it.before()));
                proof {
                    assert(a@ =~= av);
                }
                match act_insert(&mut acts, Token::Eof, a) {
                    Some(other) => {
                        proof {
                            assert(sset.seq_v().contains(itv));
                            assert(set.contains(itv));
                            assert(red_claim(set, Token::Eof, av));
                            assert(red_claim(set, Token::Eof, other@)) by {
                                let ii = choose|ii: int|
                                    0 <= ii < i && (#[trigger] sset.seq_v()[ii]).after.len() == 0
                                        && reduce_toks(sset.seq_v()[ii]).contains(Token::Eof)
                                        && other@ == ActionView::Reduce(
                                        sset.seq_v()[ii].rule,
                                        sset.seq_v()[ii].before,
                                    );
                                assert(sset.seq_v().contains(sset.seq_v()[ii]));
                                assert(set.contains(sset.seq_v()[ii]));
                            }
                        }
                        return Err(
                            Conflict {
                                token: Token::Eof,
                                either: Action::Reduce(it.rule(), ts_copy(it.before())),
                                or: other,
                                state: kk,
                            },
                        );
                    },
                    None => {
                    },
                }
                proof {
                    assert forall|t: Token, a2: ActionView|
                        #[trigger] has_act(acts@, t, a2) implies exists|ii: int|
                        0 <= ii < i + 1 && (#[trigger] sset.seq_v()[ii]).after.len() == 0
                            && reduce_toks(sset.seq_v()[ii]).contains(t) && a2
                            == ActionView::Reduce(
                            sset.seq_v()[ii].rule,
                            sset.seq_v()[ii].before,
                        ) by {
                        if t == Token::Eof && a2 == av {
                            assert(sset.seq_v()[i as int].after.len() == 0);
                        }
                    }
                    assert forall|t: Token, a2: ActionView|
                        (exists|ii: int|
                            0 <= ii < i + 1 && (#[trigger] sset.seq_v()[ii]).after.len() == 0
                                && reduce_toks(sset.seq_v()[ii]).contains(t) && a2
                                == ActionView::Reduce(
                                sset.seq_v()[ii].rule,
                                sset.seq_v()[ii].before,
                            )) implies #[trigger] has_act(acts@, t, a2) by {
                        let ii = choose|ii: int|
                            0 <= ii < i + 1 && (#[trigger] sset.seq_v()[ii]).after.len() == 0
                                && reduce_toks(sset.seq_v()[ii]).contains(t) && a2
                                == ActionView::Reduce(
                                sset.seq_v()[ii].rule,
                                sset.seq_v()[ii].before,
                            );
                        if ii == i {
                            assert(reduce_toks(itv) =~= Set::empty().insert(Token::Eof));
                            assert(t == Token::Eof);
                        }
                    }
                }
            } else {
                let la = ts_copy(it.lookahead());
                let nl = la.len();
                proof {
                    assert(la@.contains(la@[0]));
                    assert(toks(la@).contains(la@[0]));
                    assert(itv.lookahead.contains(la@[0]));
                    assert(itv.lookahead != Set::<Token>::empty());
                    assert(reduce_toks(itv) == itv.lookahead);
                }
                for li in 0..nl
                    invariant
                        graph.base_wf(),
                        k < graph.n(),
                        *sset == graph.sets_v()[k as int],
                        set == graph.set_at(k as int),
                        es == graph.edges_v()[k as int],
                        ni == sset.seq_v().len(),
                        i < ni,
                        itv == sset.seq_v()[i as int],
                        it@ == itv,
                        kk == k + 1,
                        itv.after.len() == 0,
                        av == ActionView::Reduce(itv.rule, itv.before),
                        nl == la@.len(),
                        toks(la@) == itv.lookahead,
                        reduce_toks(itv) == itv.lookahead,

                        acts_sorted(acts@),
                        forall|t: Token, a2: ActionView|
                            #[trigger] has_act(acts@, t, a2) <==> ((exists|ii: int|
                                0 <= ii < i && (#[trigger] sset.seq_v()[ii]).after.len() == 0
                                    && reduce_toks(sset.seq_v()[ii]).contains(t) && a2
                                    == ActionView::Reduce(
                                    sset.seq_v()[ii].rule,
                                    sset.seq_v()[ii].before,
                                )) || (la@.take(li as int).contains(t) && a2 == av)),
                {
                    let t = la[li];
                    let a = Action::Reduce(it.rule(), ts_copy(it.before()));
                    proof {
                        assert(a@ =~= av);
                    }
                    proof {
                        assert(la@.contains(t)) by {
                            assert(la@[li as int] == t);
                        }
                        assert(reduce_toks(itv).contains(t));
                    }
                    match act_insert(&mut acts, t, a) {
                        Some(other) => {
                            proof {
                                assert(sset.seq_v().contains(itv));
                                assert(set.contains(itv));
                                assert(red_claim(set, t, av));
                                if other@ == av {
                                } else {
                                    let ii = choose|ii: int|
                                        0 <= ii < i && (#[trigger] sset.seq_v()[ii]).after.len()
                                            == 0 && reduce_toks(sset.seq_v()[ii]).contains(t)
                                            && other@ == ActionView::Reduce(
                                            sset.seq_v()[ii].rule,
                                            sset.seq_v()[ii].before,
                                        );
                                    assert(sset.seq_v().contains(sset.seq_v()[ii]));
                                    assert(set.contains(sset.seq_v()[ii]));
                                    assert(red_claim(set, t, other@));
                                }
                            }
                            return Err(
                                Conflict {
                                    token: t,
                                    either: Action::Reduce(it.rule(), ts_copy(it.before())),
                                    or: other,
                                    state: kk,
                                },
                            );
                        },
                        None => {
                        },
                    }
                    proof {
                        assert(la@.take(li + 1).drop_last() =~= la@.take(li as int));
                        assert(la@.take(li + 1).last() == t);
                        assert forall|t2: Token|
                            #[trigger] la@.take(li + 1).contains(t2) implies (la@.take(
                            li as int,
                        ).contains(t2) || t2 == t) by {
                            let e = choose|e: int|
                                0 <= e < li + 1 && #[trigger] la@.take(li + 1)[e] == t2;
                            if e < li {
                                assert(la@.take(li as int)[e] == t2);
                            }
                        }
                        assert forall|t2: Token|
                            (la@.take(li as int).contains(t2) || t2 == t) implies #[trigger] la@.take(
                            li + 1,
                        ).contains(t2) by {
                            if la@.take(li as int).contains(t2) {
                                let e = choose|e: int|
                                    0 <= e < li && #[trigger] la@.take(li as int)[e] == t2;
                                assert(la@.take(li + 1)[e] == t2);
                            } else {
                                assert(la@.take(li + 1)[li as int] == t2);
                            }
                        }
                    }
                }
                proof {
                    assert(la@.take(nl as int) =~= la@);
                    assert forall|t: Token, a2: ActionView|
                        #[trigger] has_act(acts@, t, a2) implies exists|ii: int|
                        0 <= ii < i + 1 && (#[trigger] sset.seq_v()[ii]).after.len() == 0
                            && reduce_toks(sset.seq_v()[ii]).contains(t) && a2
                            == ActionView::Reduce(
                            sset.seq_v()[ii].rule,
                            sset.seq_v()[ii].before,
                        ) by {
                        if la@.contains(t) && a2 == av {
                            assert(toks(la@).contains(t));
                            assert(sset.seq_v()[i as int].after.len() == 0);
                            assert(reduce_toks(sset.seq_v()[i as int]).contains(t));
                        }
                    }
                    assert forall|t: Token, a2: ActionView|
                        (exists|ii: int|
                            0 <= ii < i + 1 && (#[trigger] sset.seq_v()[ii]).after.len() == 0
                                && reduce_toks(sset.seq_v()[ii]).contains(t) && a2
                                == ActionView::Reduce(
                                sset.seq_v()[ii].rule,
                                sset.seq_v()[ii].before,
                            )) implies #[trigger] has_act(acts@, t, a2) by {
                        let ii = choose|ii: int|
                            0 <= ii < i + 1 && (#[trigger] sset.seq_v()[ii]).after.len() == 0
                                && reduce_toks(sset.seq_v()[ii]).contains(t) && a2
                                == ActionView::Reduce(
                                sset.seq_v()[ii].rule,
                                sset.seq_v()[ii].before,
                            );
                        if ii == i {
                            assert(toks(la@).contains(t));
                        }
                    }
                }
            }
        } else {
            proof {
                assert forall|t: Token, a2: ActionView|
                    #[trigger] has_act(acts@, t, a2) implies exists|ii: int|
                    0 <= ii < i + 1 && (#[trigger] sset.seq_v()[ii]).after.len() == 0
                        && reduce_toks(sset.seq_v()[ii]).contains(t) && a2 == ActionView::Reduce(
                        sset.seq_v()[ii].rule,
                        sset.seq_v()[ii].before,
                    ) by {}
            }
        }
    }
    proof {
        // the accumulated actions are exactly the reduce claims
        assert forall|t: Token, a: ActionView| #[trigger] has_act(acts@, t, a) implies red_claim(
            set,
            t,
            a,
        ) by {
            let ii = choose|ii: int|
                0 <= ii < ni && (#[trigger] sset.seq_v()[ii]).after.len() == 0 && reduce_toks(
                    sset.seq_v()[ii],
                ).contains(t) && a == ActionView::Reduce(
                    sset.seq_v()[ii].rule,
                    sset.seq_v()[ii].before,
                );
            assert(sset.seq_v().contains(sset.seq_v()[ii]));
            assert(set.contains(sset.seq_v()[ii]));
        }
        assert forall|t: Token, a: ActionView| red_claim(set, t, a) implies #[trigger] has_act(
            acts@,
            t,
            a,
        ) by {
            let it = choose|it: ItemView|
                #[trigger] set.contains(it) && it.after.len() == 0 && reduce_toks(it).contains(t)
                    && a == ActionView::Reduce(it.rule, it.before);
            let ii = choose|ii: int| 0 <= ii < sset.seq_v().len() && sset.seq_v()[ii] == it;
        }
    }
    // shifts and gotos from the transitions
    let es_x = graph.edges(k + 1);
    let ne = es_x.len();
    let mut gotos: Vec<(Id, Uid)> = Vec::new();
    let mut e: usize = 0;
    while e < ne
        invariant
            graph.base_wf(),
            k < graph.n(),
            set == graph.set_at(k as int),
            es == graph.edges_v()[k as int],
            es_x@ == es,
            ne == es.len(),
            e <= ne,
            kk == k + 1,
            acts_sorted(acts@),
            forall|t: Token, a: ActionView|
                #[trigger] has_act(acts@, t, a) <==> (red_claim(set, t, a) || exists|ee: int|
                    0 <= ee < e && (#[trigger] es[ee]).0 == t && (t is Term || t is Eof) && a
                        == ActionView::Shift(es[ee].1 as int)),
            forall|id: Id, u: int|
                #[trigger] has_goto(gotos@, id, u) <==> exists|ee: int|
                    0 <= ee < e && (#[trigger] es[ee]).0 == Token::NonTerm(id)
                        && es[ee].1 as int == u,
        decreases ne - e,
    {
        let (t, u) = es_x[e];
        proof {
            assert(es[e as int] == (t, u));
        }
        match t {
            Token::NonTerm(id) => {
                let ghost gpre = gotos@;
                gotos.push((id, u));
                proof {
                    assert(gotos@ == gpre.push((id, u)));
                    assert forall|id2: Id, u2: int| #[trigger] has_goto(gotos@, id2, u2) implies
                        exists|ee: int|
                        0 <= ee < e + 1 && (#[trigger] es[ee]).0 == Token::NonTerm(id2)
                            && es[ee].1 as int == u2 by {
                        let ge = choose|ge: int|
                            0 <= ge < gotos@.len() && (#[trigger] gotos@[ge]).0 == id2
                                && gotos@[ge].1 as int == u2;
                        if ge < gpre.len() {
                            assert(gpre[ge].0 == id2 && gpre[ge].1 as int == u2);
                            assert(has_goto(gpre, id2, u2));
                        } else {
                            assert((es[e as int]).0 == Token::NonTerm(id2));
                            assert(es[e as int].1 as int == u2);
                        }
                    }
                    assert forall|id2: Id, u2: int|
                        (exists|ee: int|
                            0 <= ee < e + 1 && (#[trigger] es[ee]).0 == Token::NonTerm(id2)
                                && es[ee].1 as int == u2) implies #[trigger] has_goto(
                        gotos@,
                        id2,
                        u2,
                    ) by {
                        let ee = choose|ee: int|
                            0 <= ee < e + 1 && (#[trigger] es[ee]).0 == Token::NonTerm(id2)
                                && es[ee].1 as int == u2;
                        if ee < e {
                            assert(has_goto(gpre, id2, u2));
                            let ge = choose|ge: int|
                                0 <= ge < gpre.len() && (#[trigger] gpre[ge]).0 == id2
                                    && gpre[ge].1 as int == u2;
                            assert((gotos@[ge]).0 == id2 && gotos@[ge].1 as int == u2);
                        } else {
                            assert((gotos@[gotos@.len() - 1]).0 == id2);
                            assert(gotos@[gotos@.len() - 1].1 as int == u2);
                        }
                    }
                }
            },
            Token::Term(_) | Token::Eof => {
                let a = Action::Shift(u);
                match act_insert(&mut acts, t, a) {
                    Some(other) => {
                        proof {
                            assert(shift_claim(es, t, ActionView::Shift(u as int))) by {
                                assert((es[e as int]).0 == t);
                            }
                            if !red_claim(set, t, other@) {
                                let ee = choose|ee: int|
                                    0 <= ee < e && (#[trigger] es[ee]).0 == t && (t is Term
                                        || t is Eof) && other@ == ActionView::Shift(
                                        es[ee].1 as int,
                                    );
                                assert(shift_claim(es, t, other@));
                            }
                        }
                        return Err(
                            Conflict { token: t, either: Action::Shift(u), or: other, state: kk },
                        );
                    },
                    None => {
                    },
                }
                proof {
                    assert forall|t2: Token, a2: ActionView| #[trigger] has_act(acts@, t2, a2)
                        implies (red_claim(set, t2, a2) || exists|ee: int|
                        0 <= ee < e + 1 && (#[trigger] es[ee]).0 == t2 && (t2 is Term
                            || t2 is Eof) && a2 == ActionView::Shift(es[ee].1 as int)) by {
                        if t2 == t && a2 == ActionView::Shift(u as int) {
                            assert((es[e as int]).0 == t2);
                        }
                    }
                }
            },
            Token::Empty => {
                proof {
                    assert forall|t2: Token, a2: ActionView| #[trigger] has_act(acts@, t2, a2)
                        implies (red_claim(set, t2, a2) || exists|ee: int|
                        0 <= ee < e + 1 && (#[trigger] es[ee]).0 == t2 && (t2 is Term
                            || t2 is Eof) && a2 == ActionView::Shift(es[ee].1 as int)) by {}
                }
            },
        }
        e += 1;
    }
    let te = TableEntry { actions: acts, gotos };
    proof {
        assert forall|t: Token, a: ActionView| #[trigger] has_act(te.acts_v(), t, a) implies
            is_claim(set, es, t, a) by {}
        assert forall|t: Token, a: ActionView| is_claim(set, es, t, a) implies #[trigger] has_act(
            te.acts_v(),
            t,
            a,
        ) by {
            if shift_claim(es, t, a) {
                let ee = choose|ee: int|
                    0 <= ee < es.len() && (#[trigger] es[ee]).0 == t && (t is Term || t is Eof)
                        && a == ActionView::Shift(es[ee].1 as int);
            }
        }
    }
    Ok(te)
}

impl Table {
    /// Converts the graph into a table, one entry per state: each
    /// terminal or Eof transition becomes a shift, each non-terminal
    /// transition a goto, and each finished item a reduce under every
    /// token of its lookahead (Eof when the lookahead is empty). Fails
    /// fast on the first shift/reduce or reduce/reduce conflict.
    pub fn from_graph(graph: &Graph) -> (r: Result<Table, Conflict>)
        requires
            graph.base_wf(),
        ensures
            match r {
                Ok(t) => t.matches(graph) && conflict_free(graph) && (forall|k: int, e: int|
                    0 <= k < t.n() && 0 <= e < t.entries_v()[k].acts_v().len() ==> {
                        let tok = (#[trigger] t.entries_v()[k].acts_v()[e]).0;
                        tok is Term || tok is Eof
                    }),
                Err(c) => {
                    &&& 1 <= c.state <= graph.n()
                    &&& is_claim(
                        graph.set_at(c.state - 1),
                        graph.edges_v()[c.state - 1],
                        c.token,
                        c.either@,
                    )
                    &&& is_claim(
                        graph.set_at(c.state - 1),
                        graph.edges_v()[c.state - 1],
                        c.token,
                        c.or@,
                    )
                    &&& c.either@ != c.or@
                },
            },
    {
        let n = graph.node_count();
        let mut entries: Vec<TableEntry> = Vec::new();
        for k in 0..n
            invariant
                graph.base_wf(),
                n == graph.n(),
                entries@.len() == k,
                forall|q: int|
                    0 <= q < k ==> acts_sorted((#[trigger] entries@[q]).acts_v()),
                forall|q: int, t: Token, a: ActionView|
                    0 <= q < k ==> (#[trigger] has_act(entries@[q].acts_v(), t, a) <==> is_claim(
                        graph.set_at(q),
                        graph.edges_v()[q],
                        t,
                        a,
                    )),
                forall|q: int, id: Id, u: int|
                    0 <= q < k ==> (#[trigger] has_goto(entries@[q].gotos_v(), id, u) <==> exists|
                        e: int,
                    |
                        0 <= e < graph.edges_v()[q].len() && (#[trigger] graph.edges_v()[q][e]).0
                            == Token::NonTerm(id) && graph.edges_v()[q][e].1 as int == u),
        {
            match state_entry(graph, k) {
                Ok(te) => {
                    entries.push(te);
                },
                Err(c) => {
                    return Err(c);
                },
            }
        }
        let t = Table { entries };
        proof {
            assert(t.matches(graph));
            // actions are keyed by terminals or Eof only
            assert forall|k: int, e: int|
                0 <= k < t.n() && 0 <= e < t.entries_v()[k].acts_v().len() implies {
                let tok = (#[trigger] t.entries_v()[k].acts_v()[e]).0;
                tok is Term || tok is Eof
            } by {
                let acts = t.entries_v()[k].acts_v();
                let tok = acts[e].0;
                assert(has_act(acts, tok, acts[e].1@)) by {
                    assert((acts[e]).0 == tok && acts[e].1@ == acts[e].1@);
                }
                assert(is_claim(graph.set_at(k), graph.edges_v()[k], tok, acts[e].1@));
                if !shift_claim(graph.edges_v()[k], tok, acts[e].1@) {
                    let it = choose|it: ItemView|
                        #[trigger] graph.set_at(k).contains(it) && it.after.len() == 0
                            && reduce_toks(it).contains(tok) && acts[e].1@ == ActionView::Reduce(
                            it.rule,
                            it.before,
                        );
                    assert(la_ok(it));
                    if it.lookahead == Set::<Token>::empty() {
                        assert(tok == Token::Eof);
                    } else {
                        assert(it.lookahead.contains(tok));
                    }
                }
            }
            assert forall|k: int, tok: Token, a1: ActionView, a2: ActionView|
                0 <= k < graph.n() && is_claim(graph.set_at(k), graph.edges_v()[k], tok, a1)
                    && is_claim(graph.set_at(k), graph.edges_v()[k], tok, a2) implies a1 == a2 by {
                assert(has_act(t.entries_v()[k].acts_v(), tok, a1));
                assert(has_act(t.entries_v()[k].acts_v(), tok, a2));
                let e1 = choose|e: int|
                    0 <= e < t.entries_v()[k].acts_v().len() && (
                    #[trigger] t.entries_v()[k].acts_v()[e]).0 == tok
                        && t.entries_v()[k].acts_v()[e].1@ == a1;
                let e2 = choose|e: int|
                    0 <= e < t.entries_v()[k].acts_v().len() && (
                    #[trigger] t.entries_v()[k].acts_v()[e]).0 == tok
                        && t.entries_v()[k].acts_v()[e].1@ == a2;
                if e1 < e2 {
                    assert(token_lt(tok, tok));
                } else if e2 < e1 {
                    assert(token_lt(tok, tok));
                }
            }
        }
        Ok(t)
    }
}

} // verus!
