//! The item-set graph builder: LR(1) items, the closure and goto
//! operators, and the canonical collection of item sets with its
//! transitions.

use vstd::prelude::*;

use crate::grammar::{
    default_fuel, lemma_first_range, name_text_or_hole, spec_first, tok_valid, tok_valid_x,
    token_before, token_lt, token_text_or_hole, toks_text, EntryView, Grammar, Token,
};
use vstd::string::{StringExecFns, StringSliceAdditionalSpecFns};
use crate::string_pool::{Id, Pool};
use crate::tokset::{
    lemma_canonical_eq, tok_sorted, toks, ts_contains, ts_copy, ts_remove, ts_seq_eq, ts_union,
};

verus! {

/// An LR(1) item as a mathematical value: `before + after` is one
/// production's right-hand side, the dot sits between them, and
/// `lookahead` holds terminals or Eof.
#[verifier::ext_equal]
pub struct ItemView {
    pub rule: Id,
    pub before: Seq<Token>,
    pub after: Seq<Token>,
    pub lookahead: Set<Token>,
}

/// One LR(1) item. The lookahead is kept canonically sorted, so two items
/// with equal mathematical values are structurally equal.
#[derive(Debug, Clone)]
pub struct State {
    pub(crate) rule: Id,
    pub(crate) before: Vec<Token>,
    pub(crate) after: Vec<Token>,
    pub(crate) lookahead: Vec<Token>,
}

impl State {
    /// The lookahead in its canonical order.
    pub closed spec fn la_seq(&self) -> Seq<Token> {
        self.lookahead@
    }

    /// The canonical-form invariant.
    pub open spec fn wf(&self) -> bool {
        tok_sorted(self.la_seq())
    }
}

impl View for State {
    type V = ItemView;

    closed spec fn view(&self) -> ItemView {
        ItemView {
            rule: self.rule,
            before: self.before@,
            after: self.after@,
            lookahead: toks(self.lookahead@),
        }
    }
}

impl State {
    /// The rule this item belongs to.
    pub fn rule(&self) -> (r: Id)
        ensures
            r == self@.rule,
    {
        self.rule
    }

    /// The symbols before the dot.
    pub fn before(&self) -> (r: &Vec<Token>)
        ensures
            r@ == self@.before,
    {
        &self.before
    }

    /// The symbols after the dot.
    pub fn after(&self) -> (r: &Vec<Token>)
        ensures
            r@ == self@.after,
    {
        &self.after
    }

    /// The lookahead, in canonical order.
    pub fn lookahead(&self) -> (r: &Vec<Token>)
        ensures
            r@ == self.la_seq(),
            toks(r@) == self@.lookahead,
            self.wf() ==> tok_sorted(r@),
    {
        &self.lookahead
    }

    /// The item `rule -> . productions` with an empty lookahead.
    pub fn new(rule: Id, productions: Vec<Token>) -> (s: State)
        ensures
            s.wf(),
            s@.rule == rule,
            s@.before == Seq::<Token>::empty(),
            s@.after == productions@,
            s@.lookahead == Set::<Token>::empty(),
    {
        let s = State { rule, before: Vec::new(), after: productions, lookahead: Vec::new() };
        proof {
            assert(s@.lookahead =~= Set::<Token>::empty());
        }
        s
    }
}

/// Appends a token's display form, or a placeholder for an identifier
/// that the pool does not hold.
fn append_token(out: &mut String, pool: &Pool, t: &Token)
    ensures
        final(out)@ == old(out)@ + token_text_or_hole(pool@, *t),
{
    let ghost pre = out@;
    if tok_valid_x(pool, t) {
        t.display(pool).append_to(out);
    } else {
        out.append("?");
    }
    proof {
        assert(out@ =~= pre + token_text_or_hole(pool@, *t));
    }
}

/// The display text of an item: `rule -> before . after  { lookahead }`,
/// the lookahead in its canonical order.
pub open spec fn state_text(pool: Seq<Seq<char>>, s: State) -> Seq<char> {
    name_text_or_hole(pool, s@.rule) + " -> "@ + toks_text(pool, s@.before, s@.before.len() as int)
        + "."@ + toks_text(pool, s@.after, s@.after.len() as int) + " { "@ + toks_text(
        pool,
        s.la_seq(),
        s.la_seq().len() as int,
    ) + "}"@
}

/// An item paired with the pool that resolves its names.
pub struct StateDisplay<'a> {
    state: &'a State,
    pool: &'a Pool,
}

impl State {
    /// Pairs the item with a pool for display.
    pub fn display<'a>(&'a self, pool: &'a Pool) -> (r: StateDisplay<'a>)
        ensures
            r.state_s() == *self,
            r.pool_s() == pool@,
    {
        StateDisplay { state: self, pool }
    }
}

impl<'a> StateDisplay<'a> {
    /// The item being displayed.
    pub closed spec fn state_s(&self) -> State {
        *self.state
    }

    /// The contents of the pool resolving its names.
    pub closed spec fn pool_s(&self) -> Seq<Seq<char>> {
        self.pool@
    }

    /// `rule -> before . after { lookahead }`.
    pub fn render(&self) -> (r: String)
        ensures
            r@ == state_text(self.pool_s(), self.state_s()),
    {
        let mut out = String::new();
        self.append_to(&mut out);
        out
    }

    /// Appends the item's display form to `out`.
    #[verifier::rlimit(60)]
    #[verifier::spinoff_prover]
    pub fn append_to(&self, out: &mut String)
        ensures
            final(out)@ == old(out)@ + state_text(self.pool_s(), self.state_s()),
    {
        let ghost pre = out@;
        let pool = self.pool;
        if self.state.rule.0 < pool.len() {
            out.append(pool.get(self.state.rule));
        } else {
            out.append("?");
        }
        out.append(" -> ");
        let ghost h1 = out@;
        let nb = self.state.before.len();
        for i in 0..nb
            invariant
                nb == self.state.before@.len(),
                out@ == h1 + toks_text(pool@, self.state.before@, i as int),
                pool == self.pool,
        {
            append_token(out, pool, &self.state.before[i]);
            out.append(" ");
            proof {
                assert(out@ =~= h1 + toks_text(pool@, self.state.before@, i + 1));
            }
        }
        out.append(".");
        let ghost h2 = out@;
        let na = self.state.after.len();
        for i in 0..na
            invariant
                na == self.state.after@.len(),
                out@ == h2 + toks_text(pool@, self.state.after@, i as int),
                pool == self.pool,
        {
            append_token(out, pool, &self.state.after[i]);
            out.append(" ");
            proof {
                assert(out@ =~= h2 + toks_text(pool@, self.state.after@, i + 1));
            }
        }
        out.append(" { ");
        let ghost h3 = out@;
        let nl = self.state.lookahead.len();
        for i in 0..nl
            invariant
                nl == self.state.lookahead@.len(),
                out@ == h3 + toks_text(pool@, self.state.lookahead@, i as int),
                pool == self.pool,
        {
            append_token(out, pool, &self.state.lookahead[i]);
            out.append(" ");
            proof {
                assert(out@ =~= h3 + toks_text(pool@, self.state.lookahead@, i + 1));
            }
        }
        out.append("}");
        proof {
            assert(out@ =~= pre + state_text(self.pool_s(), self.state_s()));
        }
    }
}

/// Decides whether two well-formed items are the same item.
pub fn item_eq(a: &State, b: &State) -> (r: bool)
    requires
        a.wf(),
        b.wf(),
    ensures
        r == (a@ == b@),
{
    if a.rule != b.rule {
        return false;
    }
    if !ts_seq_eq(&a.before, &b.before) {
        return false;
    }
    if !ts_seq_eq(&a.after, &b.after) {
        return false;
    }
    if ts_seq_eq(&a.lookahead, &b.lookahead) {
        proof {
            assert(a@ =~= b@);
        }
        true
    } else {
        proof {
            if toks(a.la_seq()) == toks(b.la_seq()) {
                lemma_canonical_eq(a.la_seq(), b.la_seq());
            }
        }
        false
    }
}

/// A set of LR(1) items, held as a duplicate-free vector so that growth
/// and iteration are deterministic.
#[derive(Debug, Clone)]
pub struct StateSet {
    items: Vec<State>,
}

impl StateSet {
    /// The items, in insertion order.
    pub closed spec fn items_v(&self) -> Seq<State> {
        self.items@
    }

    /// The item values, in insertion order.
    pub open spec fn seq_v(&self) -> Seq<ItemView> {
        Seq::new(self.items_v().len(), |i: int| self.items_v()[i]@)
    }

    /// Canonical items, no item twice.
    pub open spec fn wf(&self) -> bool {
        &&& forall|i: int| 0 <= i < self.items_v().len() ==> (#[trigger] self.items_v()[i]).wf()
        &&& forall|i: int, j: int|
            0 <= i < j < self.seq_v().len() ==> self.seq_v()[i] != self.seq_v()[j]
    }
}

impl View for StateSet {
    type V = Set<ItemView>;

    open spec fn view(&self) -> Set<ItemView> {
        Set::new(|it: ItemView| self.seq_v().contains(it))
    }
}

impl StateSet {
    /// An empty item set.
    pub fn new() -> (s: StateSet)
        ensures
            s.wf(),
            s@ =~= Set::<ItemView>::empty(),
            s.seq_v() =~= Seq::<ItemView>::empty(),
    {
        let s = StateSet { items: Vec::new() };
        proof {
            assert(s.seq_v() =~= Seq::<ItemView>::empty());
        }
        s
    }

    /// The number of items.
    pub fn len(&self) -> (n: usize)
        ensures
            n == self.seq_v().len(),
    {
        self.items.len()
    }

    /// The item at position `i`.
    pub fn index(&self, i: usize) -> (s: &State)
        requires
            i < self.seq_v().len(),
        ensures
            s@ == self.seq_v()[i as int],
            *s == self.items_v()[i as int],
            self.wf() ==> s.wf(),
    {
        &self.items[i]
    }

    /// Decides membership of an item value.
    pub fn contains_item(&self, it: &State) -> (r: bool)
        requires
            self.wf(),
            it.wf(),
        ensures
            r == self@.contains(it@),
    {
        let n = self.items.len();
        for i in 0..n
            invariant
                self.wf(),
                it.wf(),
                n == self.items_v().len(),
                forall|k: int| 0 <= k < i ==> self.seq_v()[k] != it@,
        {
            if item_eq(&self.items[i], it) {
                proof {
                    assert(self.seq_v()[i as int] == it@);
                    assert(self.seq_v().contains(it@));
                }
                return true;
            }
        }
        false
    }

    /// Appends an item that is not yet present.
    pub fn push(&mut self, it: State)
        requires
            old(self).wf(),
            it.wf(),
            !old(self)@.contains(it@),
        ensures
            final(self).wf(),
            final(self).seq_v() == old(self).seq_v().push(it@),
            final(self)@ == old(self)@.insert(it@),
    {
        self.items.push(it);
        proof {
            assert(self.seq_v() =~= old(self).seq_v().push(it@));
            assert forall|x: ItemView| self@.contains(x) implies old(self)@.insert(it@).contains(
                x,
            ) by {
                let k = choose|k: int| 0 <= k < self.seq_v().len() && self.seq_v()[k] == x;
                if k < self.seq_v().len() - 1 {
                    assert(old(self).seq_v()[k] == x);
                    assert(old(self).seq_v().contains(x));
                }
            }
            assert forall|x: ItemView| old(self)@.insert(it@).contains(x) implies self@.contains(
                x,
            ) by {
                if x == it@ {
                    assert(self.seq_v()[self.seq_v().len() - 1] == x);
                    assert(self.seq_v().contains(x));
                } else {
                    let k = choose|k: int|
                        0 <= k < old(self).seq_v().len() && old(self).seq_v()[k] == x;
                    assert(self.seq_v()[k] == x);
                    assert(self.seq_v().contains(x));
                }
            }
            assert(self@ =~= old(self)@.insert(it@));
        }
    }

    /// Decides whether two well-formed item sets hold the same items.
    pub fn set_eq(&self, other: &StateSet) -> (r: bool)
        requires
            self.wf(),
            other.wf(),
        ensures
            r == (self@ == other@),
    {
        let n = self.items.len();
        for i in 0..n
            invariant
                self.wf(),
                other.wf(),
                n == self.items_v().len(),
                forall|k: int| 0 <= k < i ==> other@.contains(#[trigger] self.seq_v()[k]),
        {
            if !other.contains_item(&self.items[i]) {
                proof {
                    assert(self.seq_v().contains(self.seq_v()[i as int]));
                    assert(self@.contains(self.seq_v()[i as int]));
                }
                return false;
            }
        }
        let m = other.items.len();
        for i in 0..m
            invariant
                self.wf(),
                other.wf(),
                n == self.items_v().len(),
                m == other.items_v().len(),
                forall|k: int| 0 <= k < n ==> other@.contains(#[trigger] self.seq_v()[k]),
                forall|k: int| 0 <= k < i ==> self@.contains(#[trigger] other.seq_v()[k]),
        {
            if !self.contains_item(&other.items[i]) {
                proof {
                    assert(other.seq_v().contains(other.seq_v()[i as int]));
                    assert(other@.contains(other.seq_v()[i as int]));
                }
                return false;
            }
        }
        proof {
            assert forall|x: ItemView| self@.contains(x) implies other@.contains(x) by {
                let k = choose|k: int| 0 <= k < self.seq_v().len() && self.seq_v()[k] == x;
            }
            assert forall|x: ItemView| other@.contains(x) implies self@.contains(x) by {
                let k = choose|k: int| 0 <= k < other.seq_v().len() && other.seq_v()[k] == x;
            }
            assert(self@ =~= other@);
        }
        true
    }
}

impl StateSet {
    /// Collects items into a set, dropping duplicates.
    pub fn from_items(items: Vec<State>) -> (r: StateSet)
        requires
            forall|i: int| 0 <= i < items@.len() ==> (#[trigger] items@[i]).wf(),
        ensures
            r.wf(),
            forall|x: ItemView| r@.contains(x) <==> exists|i: int|
                0 <= i < items@.len() && (#[trigger] items@[i])@ == x,
    {
        let mut r = StateSet::new();
        let n = items.len();
        for i in 0..n
            invariant
                n == items@.len(),
                forall|k: int| 0 <= k < n ==> (#[trigger] items@[k]).wf(),
                r.wf(),
                forall|x: ItemView|
                    r@.contains(x) <==> exists|k: int|
                        0 <= k < i && (#[trigger] items@[k])@ == x,
        {
            let src = &items[i];
            let it = State {
                rule: src.rule,
                before: ts_copy(&src.before),
                after: ts_copy(&src.after),
                lookahead: ts_copy(&src.lookahead),
            };
            proof {
                assert(it@ =~= items@[i as int]@);
                assert(it.wf());
            }
            if !r.contains_item(&it) {
                r.push(it);
            }
            proof {
                assert forall|x: ItemView| r@.contains(x) implies exists|k: int|
                    0 <= k < i + 1 && (#[trigger] items@[k])@ == x by {
                    if x == items@[i as int]@ {
                        assert(items@[i as int]@ == x);
                    }
                }
                assert forall|x: ItemView|
                    (exists|k: int| 0 <= k < i + 1 && (#[trigger] items@[k])@ == x) implies
                    r@.contains(x) by {}
            }
        }
        r
    }
}

/// A state identifier of the item-set graph; assigned monotonically
/// starting at 1 as new distinct sets are discovered.
pub type Uid = usize;

/// The item advanced past the symbol at its dot.
pub open spec fn advance_item(src: ItemView) -> ItemView {
    ItemView {
        rule: src.rule,
        before: src.before.push(src.after[0]),
        after: src.after.drop_first(),
        lookahead: src.lookahead,
    }
}

/// The goto operator: every item of `s` whose dot stands before `x`,
/// advanced past it.
pub open spec fn spec_goto(s: Set<ItemView>, x: Token) -> Set<ItemView> {
    Set::new(
        |it: ItemView|
            exists|src: ItemView|
                #[trigger] s.contains(src) && src.after.len() > 0 && src.after[0] == x && it
                    == advance_item(src),
    )
}

/// Advancing is injective on items whose dot stands before `x`.
pub proof fn lemma_advance_injective(a: ItemView, b: ItemView, x: Token)
    requires
        a.after.len() > 0 && a.after[0] == x,
        b.after.len() > 0 && b.after[0] == x,
        advance_item(a) == advance_item(b),
    ensures
        a == b,
{
    assert(a.before =~= advance_item(a).before.drop_last());
    assert(b.before =~= advance_item(b).before.drop_last());
    assert(a.after =~= seq![x] + advance_item(a).after);
    assert(b.after =~= seq![x] + advance_item(b).after);
    assert(a =~= b);
}

/// The symbols that stand after the dot of some item of `s`.
pub open spec fn head_syms(s: Set<ItemView>) -> Set<Token> {
    Set::new(
        |t: Token|
            exists|it: ItemView| #[trigger] s.contains(it) && it.after.len() > 0 && it.after[0]
                == t,
    )
}

/// The outgoing symbols of an item set, in ascending token order.
pub fn out_edges(states: &StateSet) -> (r: Vec<Token>)
    requires
        states.wf(),
    ensures
        tok_sorted(r@),
        toks(r@) == head_syms(states@),
    {
    let mut r: Vec<Token> = Vec::new();
    let n = states.len();
    for i in 0..n
        invariant
            states.wf(),
            n == states.seq_v().len(),
            tok_sorted(r@),
            toks(r@) =~= head_syms(Set::new(
                |it: ItemView| states.seq_v().take(i as int).contains(it),
            )),
    {
        let ghost pre = toks(r@);
        let it = states.index(i);
        if it.after.len() > 0 {
            crate::tokset::ts_insert(&mut r, it.after[0]);
        }
        proof {
            let ghost old_dom = Set::new(
                |x: ItemView| states.seq_v().take(i as int).contains(x),
            );
            let ghost new_dom = Set::new(|x: ItemView| states.seq_v().take(i + 1).contains(x));
            let itv = states.seq_v()[i as int];
            assert forall|t: Token| toks(r@).contains(t) implies head_syms(new_dom).contains(
                t,
            ) by {
                if pre.contains(t) {
                    let w = choose|w: ItemView|
                        #[trigger] old_dom.contains(w) && w.after.len() > 0 && w.after[0] == t;
                    let k = choose|k: int|
                        0 <= k < i && states.seq_v().take(i as int)[k] == w;
                    assert(states.seq_v().take(i + 1)[k] == w);
                    assert(new_dom.contains(w));
                } else {
                    assert(itv.after.len() > 0 && itv.after[0] == t);
                    assert(states.seq_v().take(i + 1)[i as int] == itv);
                    assert(new_dom.contains(itv));
                }
            }
            assert forall|t: Token| head_syms(new_dom).contains(t) implies toks(r@).contains(
                t,
            ) by {
                let w = choose|w: ItemView|
                    #[trigger] new_dom.contains(w) && w.after.len() > 0 && w.after[0] == t;
                let k = choose|k: int| 0 <= k < i + 1 && #[trigger] states.seq_v().take(i + 1)[k] == w;
                if k < i {
                    assert(states.seq_v().take(i as int)[k] == w);
                    assert(old_dom.contains(w));
                    assert(pre.contains(t));
                } else {
                    assert(w == itv);
                }
            }
            assert(toks(r@) =~= head_syms(new_dom));
        }
    }
    proof {
        assert(states.seq_v().take(n as int) =~= states.seq_v());
        assert(Set::new(|it: ItemView| states.seq_v().take(n as int).contains(it)) =~= states@);
        assert(toks(r@) =~= head_syms(states@));
    }
    r
}

/// The set of items of `states` whose dot stands before `edge`, advanced
/// past it.
pub fn advance_states(edge: Token, states: &StateSet) -> (r: StateSet)
    requires
        states.wf(),
    ensures
        r.wf(),
        r@ == spec_goto(states@, edge),
{
    let mut r = StateSet::new();
    let n = states.len();
    for i in 0..n
        invariant
            states.wf(),
            n == states.seq_v().len(),
            r.wf(),
            forall|x: ItemView|
                r@.contains(x) <==> exists|k: int|
                    0 <= k < i && (#[trigger] states.seq_v()[k]).after.len() > 0
                        && states.seq_v()[k].after[0] == edge && x == advance_item(
                        states.seq_v()[k],
                    ),
    {
        let ghost itv = states.seq_v()[i as int];
        let it = states.index(i);
        if it.after.len() > 0 && it.after[0] == edge {
            let mut before = ts_copy(&it.before);
            before.push(edge);
            let mut after: Vec<Token> = Vec::new();
            let m = it.after.len();
            for k in 1..m
                invariant
                    states.wf(),
                    i < states.seq_v().len(),
                    m == states.seq_v()[i as int].after.len(),
                    1 <= k <= m,
                    after@ =~= states.seq_v()[i as int].after.subrange(1, k as int),
            {
                after.push(states.index(i).after[k]);
                proof {
                    assert(after@ =~= states.seq_v()[i as int].after.subrange(1, k + 1));
                }
            }
            let adv = State {
                rule: it.rule,
                before,
                after,
                lookahead: ts_copy(&it.lookahead),
            };
            proof {
                assert(adv@.after =~= itv.after.drop_first());
                assert(adv@ =~= advance_item(itv));
                assert(adv.wf());
            }
            if !r.contains_item(&adv) {
                r.push(adv);
            }
        }
        proof {
            assert forall|x: ItemView| r@.contains(x) implies exists|k: int|
                0 <= k < i + 1 && (#[trigger] states.seq_v()[k]).after.len() > 0
                    && states.seq_v()[k].after[0] == edge && x == advance_item(
                    states.seq_v()[k],
                ) by {
                if itv.after.len() > 0 && itv.after[0] == edge && x == advance_item(itv) {
                    assert(states.seq_v()[i as int].after.len() > 0);
                }
            }
        }
    }
    proof {
        assert forall|x: ItemView| r@.contains(x) implies spec_goto(states@, edge).contains(
            x,
        ) by {
            let k = choose|k: int|
                0 <= k < n && (#[trigger] states.seq_v()[k]).after.len() > 0
                    && states.seq_v()[k].after[0] == edge && x == advance_item(
                    states.seq_v()[k],
                );
            assert(states@.contains(states.seq_v()[k])) by {
                assert(states.seq_v().contains(states.seq_v()[k]));
            }
        }
        assert forall|x: ItemView| spec_goto(states@, edge).contains(x) implies r@.contains(
            x,
        ) by {
            let src = choose|src: ItemView|
                #[trigger] states@.contains(src) && src.after.len() > 0 && src.after[0] == edge
                    && x == advance_item(src);
            let k = choose|k: int|
                0 <= k < states.seq_v().len() && states.seq_v()[k] == src;
        }
        assert(r@ =~= spec_goto(states@, edge));
    }
    r
}

/// Advancing the dot keeps an item within the grammar's productions.
pub proof fn lemma_advance_from(entries: Seq<EntryView>, src: ItemView)
    requires
        item_from(entries, src),
        src.after.len() > 0,
    ensures
        item_from(entries, advance_item(src)),
{
    let j = choose|j: int|
        0 <= j < entries.len() && (#[trigger] entries[j]).rule_name == src.rule
            && entries[j].tokens == src.before + src.after;
    let adv = advance_item(src);
    assert(adv.before + adv.after =~= src.before + src.after);
    assert(entries[j].tokens == adv.before + adv.after);
}

/// The lookahead that closure propagates from item `it` past its leading
/// non-terminal: FIRST of the rest of `after`, with ε replaced by the
/// item's own lookahead.
pub open spec fn prop_lookahead(entries: Seq<EntryView>, it: ItemView) -> Set<Token> {
    let l = spec_first(entries, it.after.drop_first(), default_fuel(entries));
    if l.contains(Token::Empty) {
        l.remove(Token::Empty).union(it.lookahead)
    } else {
        l
    }
}

/// The lookahead of an item holds terminals or Eof only.
pub open spec fn la_ok(it: ItemView) -> bool {
    forall|t: Token| it.lookahead.contains(t) ==> (t is Term || t is Eof)
}

/// Propagation keeps lookaheads within terminals and Eof.
pub proof fn lemma_prop_lookahead_ok(entries: Seq<EntryView>, it: ItemView)
    requires
        la_ok(it),
    ensures
        forall|t: Token|
            prop_lookahead(entries, it).contains(t) ==> (t is Term || t is Eof),
{
    let l = spec_first(entries, it.after.drop_first(), default_fuel(entries));
    assert forall|t: Token| prop_lookahead(entries, it).contains(t) implies (t is Term
        || t is Eof) by {
        if l.contains(Token::Empty) {
            if l.remove(Token::Empty).contains(t) {
                lemma_first_range(entries, it.after.drop_first(), default_fuel(entries), t);
            }
        } else {
            lemma_first_range(entries, it.after.drop_first(), default_fuel(entries), t);
        }
    }
}

/// The item that production `j` forces into every closed set holding
/// `it`, when the dot of `it` sits before that production's rule.
pub open spec fn forced(entries: Seq<EntryView>, it: ItemView, j: int) -> ItemView {
    ItemView {
        rule: entries[j].rule_name,
        before: Seq::empty(),
        after: entries[j].tokens,
        lookahead: prop_lookahead(entries, it),
    }
}

/// Whether item `it` demands production `j` in a closed set: the dot
/// stands before the non-terminal that production `j` belongs to.
pub open spec fn demands(entries: Seq<EntryView>, it: ItemView, j: int) -> bool {
    &&& 0 <= j < entries.len()
    &&& it.after.len() > 0
    &&& it.after[0] == Token::NonTerm(entries[j].rule_name)
}

/// Closure-closed: every demanded item is present.
pub open spec fn is_closed(entries: Seq<EntryView>, s: Set<ItemView>) -> bool {
    forall|it: ItemView, j: int|
        #![trigger s.contains(it), entries[j]]
        s.contains(it) && demands(entries, it, j) ==> s.contains(forced(entries, it, j))
}

/// `c` is the closure of `s`: the least closure-closed superset of `s`.
pub open spec fn is_closure_of(entries: Seq<EntryView>, s: Set<ItemView>, c: Set<ItemView>) -> bool {
    &&& s.subset_of(c)
    &&& is_closed(entries, c)
    &&& forall|t: Set<ItemView>|
        #![trigger is_closed(entries, t)]
        s.subset_of(t) && is_closed(entries, t) ==> c.subset_of(t)
}

/// An item whose dot position splits one of the grammar's productions.
pub open spec fn item_from(entries: Seq<EntryView>, it: ItemView) -> bool {
    exists|j: int|
        0 <= j < entries.len() && (#[trigger] entries[j]).rule_name == it.rule && entries[j].tokens
            == it.before + it.after
}

/// Extends `states` to the least closure-closed superset: for each item
/// whose dot stands before a non-terminal `N` followed by `δ`, the items
/// `N -> . γ` are added for every production `N -> γ`, with lookahead
/// FIRST(δ), ε replaced by the item's own lookahead; repeatedly, until
/// nothing is missing.
pub fn closure(grammar: &Grammar, states: StateSet) -> (r: StateSet)
    requires
        states.wf(),
    ensures
        r.wf(),
        is_closure_of(grammar.ents(), states@, r@),
        forall|it: ItemView|
            r@.contains(it) ==> states@.contains(it) || #[trigger] item_from(grammar.ents(), it),
        (forall|it: ItemView| states@.contains(it) ==> #[trigger] la_ok(it)) ==> (forall|
            it: ItemView,
        |
            r@.contains(it) ==> #[trigger] la_ok(it)),
{
    let ghost ents = grammar.ents();
    let ghost s0 = states@;
    let mut r = states;
    let mut i: usize = 0;
    while i < r.len()
        invariant
            r.wf(),
            i <= r.seq_v().len(),
            s0.subset_of(r@),
            forall|t: Set<ItemView>|
                #![trigger is_closed(ents, t)]
                s0.subset_of(t) && is_closed(ents, t) ==> r@.subset_of(t),
            forall|it: ItemView|
                r@.contains(it) ==> s0.contains(it) || #[trigger] item_from(ents, it),
            (forall|it: ItemView| s0.contains(it) ==> #[trigger] la_ok(it)) ==> (forall|
                it: ItemView,
            |
                r@.contains(it) ==> #[trigger] la_ok(it)),
            forall|k: int, j: int|
                #![trigger demands(ents, r.seq_v()[k], j)]
                0 <= k < i && demands(ents, r.seq_v()[k], j) ==> r@.contains(
                    forced(ents, r.seq_v()[k], j),
                ),
            ents == grammar.ents(),
        decreases usize::MAX - i,
    {
        let ghost itv = r.seq_v()[i as int];
        let after_len = r.index(i).after.len();
        if after_len > 0 {
            let head = r.index(i).after[0];
            if let Token::NonTerm(c) = head {
                // FIRST of what follows the leading non-terminal
                let mut delta: Vec<Token> = Vec::new();
                let m = r.index(i).after.len();
                for k in 1..m
                    invariant
                        r.wf(),
                        i < r.seq_v().len(),
                        m == r.seq_v()[i as int].after.len(),
                        1 <= k <= m,
                        delta@ =~= r.seq_v()[i as int].after.subrange(1, k as int),
                        itv == r.seq_v()[i as int],
                {
                    delta.push(r.index(i).after[k]);
                    proof {
                        assert(delta@ =~= r.seq_v()[i as int].after.subrange(1, k + 1));
                    }
                }
                proof {
                    assert(delta@ =~= itv.after.drop_first());
                }
                let mut la = grammar.first_total(&delta);
                if ts_contains(&la, &Token::Empty) {
                    ts_remove(&mut la, &Token::Empty);
                    ts_union(&mut la, &r.index(i).lookahead);
                    proof {
                        assert(toks(r.items_v()[i as int].la_seq()) == itv.lookahead);
                    }
                }
                proof {
                    assert(toks(la@) == prop_lookahead(ents, itv));
                }
                // add the initial item of every production of `c`
                let entries = grammar.entries();
                let ne = entries.len();
                for j in 0..ne
                    invariant
                        r.wf(),
                        i < r.seq_v().len(),
                        itv == r.seq_v()[i as int],
                        itv.after.len() > 0,
                        itv.after[0] == Token::NonTerm(c),
                        tok_sorted(la@),
                        toks(la@) == prop_lookahead(ents, itv),
                        ne == ents.len(),
                        ne == entries@.len(),
                        forall|k: int| 0 <= k < ne ==> (#[trigger] entries@[k])@ == ents[k],
                        s0.subset_of(r@),
                        forall|t: Set<ItemView>|
                            #![trigger is_closed(ents, t)]
                            s0.subset_of(t) && is_closed(ents, t) ==> r@.subset_of(t),
                        forall|it: ItemView|
                            r@.contains(it) ==> s0.contains(it) || #[trigger] item_from(ents, it),
                        (forall|it: ItemView| s0.contains(it) ==> #[trigger] la_ok(it)) ==> (forall|
                            it: ItemView,
                        |
                            r@.contains(it) ==> #[trigger] la_ok(it)),
                        forall|k: int, jj: int|
                            #![trigger demands(ents, r.seq_v()[k], jj)]
                            0 <= k < i && demands(ents, r.seq_v()[k], jj) ==> r@.contains(
                                forced(ents, r.seq_v()[k], jj),
                            ),
                        forall|jj: int|
                            0 <= jj < j && demands(ents, itv, jj) ==> r@.contains(
                                #[trigger] forced(ents, itv, jj),
                            ),
                        ents == grammar.ents(),
                {
                    let e = &entries[j];
                    if e.rule_name() == c {
                        let cand = State {
                            rule: e.rule_name(),
                            before: Vec::new(),
                            after: ts_copy(e.tokens()),
                            lookahead: ts_copy(&la),
                        };
                        proof {
                            assert(cand@.before =~= Seq::<Token>::empty());
                            assert(cand@ =~= forced(ents, itv, j as int));
                            assert(demands(ents, itv, j as int));
                        }
                        if !r.contains_item(&cand) {
                            proof {
                                // the new item is forced into every closed
                                // superset of the original set
                                assert forall|t: Set<ItemView>|
                                    s0.subset_of(t) && #[trigger] is_closed(ents, t) implies r@.insert(
                                    cand@,
                                ).subset_of(t) by {
                                    assert(r@.subset_of(t));
                                    assert(r@.contains(itv)) by {
                                        assert(r.seq_v().contains(itv));
                                    }
                                    assert(t.contains(itv));
                                    assert(t.contains(forced(ents, itv, j as int)));
                                }
                                assert(item_from(ents, cand@)) by {
                                    assert(ents[j as int].tokens =~= cand@.before + cand@.after);
                                }
                                if forall|it: ItemView| s0.contains(it) ==> #[trigger] la_ok(it) {
                                    assert(r@.contains(itv)) by {
                                        assert(r.seq_v().contains(itv));
                                    }
                                    assert(la_ok(itv));
                                    lemma_prop_lookahead_ok(ents, itv);
                                    assert(cand@.lookahead == prop_lookahead(ents, itv));
                                    assert(la_ok(cand@));
                                }
                            }
                            r.push(cand);
                        }
                    } else {
                        proof {
                            assert(!demands(ents, itv, j as int));
                        }
                    }
                }
            }
        }
        proof {
            // everything item `i` demands is now present
            assert forall|jj: int| demands(ents, itv, jj) implies r@.contains(
                forced(ents, itv, jj),
            ) by {
                if itv.after.len() > 0 {
                    if itv.after[0] is NonTerm {
                    } else {
                        assert(!demands(ents, itv, jj));
                    }
                }
            }
        }
        i += 1;
    }
    proof {
        // at exit, every member is some processed item, so the set is closed
        assert forall|it: ItemView, j: int|
            r@.contains(it) && #[trigger] demands(ents, it, j) implies r@.contains(
            forced(ents, it, j),
        ) by {
            let k = choose|k: int| 0 <= k < r.seq_v().len() && r.seq_v()[k] == it;
            assert(demands(ents, r.seq_v()[k], j));
        }
        assert(is_closed(ents, r@));
    }
    r
}

/// Lexicographic order on byte sequences, from position `i`.
pub open spec fn bytes_lt(a: Seq<u8>, b: Seq<u8>, i: int) -> bool
    decreases a.len() - i,
{
    if i < 0 || i >= a.len() || i >= b.len() {
        a.len() < b.len()
    } else if a[i] < b[i] {
        true
    } else if a[i] > b[i] {
        false
    } else {
        bytes_lt(a, b, i + 1)
    }
}

/// Byte-wise lexicographic order on strings.
fn str_lt(a: &str, b: &str) -> (r: bool)
    ensures
        r == bytes_lt(a.spec_bytes(), b.spec_bytes(), 0),
{
    let ab = a.as_bytes();
    let bb = b.as_bytes();
    let na = ab.len();
    let nb = bb.len();
    let n = if na < nb {
        na
    } else {
        nb
    };
    for i in 0..n
        invariant
            ab@ == a.spec_bytes(),
            bb@ == b.spec_bytes(),
            na == ab@.len(),
            nb == bb@.len(),
            n <= na && n <= nb,
            bytes_lt(ab@, bb@, 0) == bytes_lt(ab@, bb@, i as int),
    {
        let ca = ab[i];
        let cb = bb[i];
        if ca < cb {
            return true;
        }
        if ca > cb {
            return false;
        }
    }
    na < nb
}

/// Lexicographic order on token sequences, from position `i`.
pub open spec fn toks_lt_s(a: Seq<Token>, b: Seq<Token>, i: int) -> bool
    decreases a.len() - i,
{
    if i < 0 || i >= a.len() || i >= b.len() {
        a.len() < b.len()
    } else if token_lt(a[i], b[i]) {
        true
    } else if token_lt(b[i], a[i]) {
        false
    } else {
        toks_lt_s(a, b, i + 1)
    }
}

/// Lexicographic order on token vectors.
fn toks_lt(a: &Vec<Token>, b: &Vec<Token>) -> (r: bool)
    ensures
        r == toks_lt_s(a@, b@, 0),
{
    let na = a.len();
    let nb = b.len();
    let n = if na < nb {
        na
    } else {
        nb
    };
    for i in 0..n
        invariant
            na == a@.len(),
            nb == b@.len(),
            n <= na && n <= nb,
            toks_lt_s(a@, b@, 0) == toks_lt_s(a@, b@, i as int),
    {
        if token_before(&a[i], &b[i]) {
            return true;
        }
        if token_before(&b[i], &a[i]) {
            return false;
        }
        proof {
            assert(a@[i as int] == b@[i as int]) by {
                crate::grammar::lemma_token_order(a@[i as int], b@[i as int]);
            }
        }
    }
    na < nb
}

/// The display order of items within a node: by rule name, then by the
/// item's parts.
pub open spec fn state_display_lt_s(pool: Seq<Seq<char>>, a: State, b: State) -> bool {
    let an_ok = a@.rule.idx() < pool.len();
    let bn_ok = b@.rule.idx() < pool.len();
    if an_ok && bn_ok && bytes_lt(
        vstd::utf8::encode_utf8(pool[a@.rule.idx()]),
        vstd::utf8::encode_utf8(pool[b@.rule.idx()]),
        0,
    ) {
        true
    } else if an_ok && bn_ok && bytes_lt(
        vstd::utf8::encode_utf8(pool[b@.rule.idx()]),
        vstd::utf8::encode_utf8(pool[a@.rule.idx()]),
        0,
    ) {
        false
    } else if a@.rule.idx() != b@.rule.idx() {
        a@.rule.idx() < b@.rule.idx()
    } else if toks_lt_s(a@.before, b@.before, 0) {
        true
    } else if toks_lt_s(b@.before, a@.before, 0) {
        false
    } else if toks_lt_s(a@.after, b@.after, 0) {
        true
    } else if toks_lt_s(b@.after, a@.after, 0) {
        false
    } else {
        toks_lt_s(a.la_seq(), b.la_seq(), 0)
    }
}

/// Decides the display order of items.
fn state_display_lt(pool: &Pool, a: &State, b: &State) -> (r: bool)
    ensures
        r == state_display_lt_s(pool@, *a, *b),
{
    let an_ok = a.rule.0 < pool.len();
    let bn_ok = b.rule.0 < pool.len();
    if an_ok && bn_ok {
        let an = pool.get(a.rule);
        let bn = pool.get(b.rule);
        if str_lt(an, bn) {
            return true;
        }
        if str_lt(bn, an) {
            return false;
        }
    }
    if a.rule.0 != b.rule.0 {
        return a.rule.0 < b.rule.0;
    }
    if toks_lt(&a.before, &b.before) {
        return true;
    }
    if toks_lt(&b.before, &a.before) {
        return false;
    }
    if toks_lt(&a.after, &b.after) {
        return true;
    }
    if toks_lt(&b.after, &a.after) {
        return false;
    }
    toks_lt(&a.lookahead, &b.lookahead)
}

/// The index, among the first `i + 1` entries of `idxs`, of the item
/// the display order places first; ties keep the earlier entry.
pub open spec fn sel_best(
    pool: Seq<Seq<char>>,
    s: Seq<State>,
    idxs: Seq<usize>,
    i: int,
) -> int
    decreases i,
{
    if i <= 0 {
        0
    } else {
        let b = sel_best(pool, s, idxs, i - 1);
        if state_display_lt_s(pool, s[idxs[i] as int], s[idxs[b] as int]) {
            i
        } else {
            b
        }
    }
}

/// The display order of item indices: repeatedly take the first-least.
pub open spec fn sel_sort(pool: Seq<Seq<char>>, s: Seq<State>, idxs: Seq<usize>) -> Seq<usize>
    decreases idxs.len(),
    via sel_sort_decreases
{
    if idxs.len() == 0 {
        Seq::empty()
    } else {
        let b = sel_best(pool, s, idxs, idxs.len() - 1);
        seq![idxs[b]] + sel_sort(pool, s, idxs.remove(b))
    }
}

#[via_fn]
proof fn sel_sort_decreases(pool: Seq<Seq<char>>, s: Seq<State>, idxs: Seq<usize>) {
    if idxs.len() > 0 {
        lemma_sel_best_range(pool, s, idxs, idxs.len() - 1);
    }
}

/// The indices 0 through `n - 1`.
pub open spec fn idx_list(n: int) -> Seq<usize> {
    Seq::new(n as nat, |i: int| i as usize)
}

/// The item label rows of one node, in the given order.
pub open spec fn labels_text(
    pool: Seq<Seq<char>>,
    items: Seq<State>,
    order: Seq<usize>,
    k: int,
) -> Seq<char>
    decreases k,
{
    if k <= 0 {
        Seq::empty()
    } else {
        labels_text(pool, items, order, k - 1) + state_text(pool, items[order[k - 1] as int])
            + "\\l"@
    }
}

/// The edge rows of one node.
pub open spec fn edges_rows_text(
    pool: Seq<Seq<char>>,
    es: Seq<(Token, Uid)>,
    uid: Uid,
    e: int,
) -> Seq<char>
    decreases e,
{
    if e <= 0 {
        Seq::empty()
    } else {
        edges_rows_text(pool, es, uid, e - 1) + "node"@ + crate::text::dec_digits(uid as nat)
            + " -> node"@ + crate::text::dec_digits(es[e - 1].1 as nat) + " [label=\""@
            + token_text_or_hole(pool, es[e - 1].0) + "\",class=\"from-node"@
            + crate::text::dec_digits(uid as nat) + " to-node"@ + crate::text::dec_digits(
            es[e - 1].1 as nat,
        ) + "\"]\n"@
    }
}

/// The DOT label of one node: its items in display order.
pub open spec fn node_label_text(pool: Seq<Seq<char>>, sset: StateSet, uid: Uid) -> Seq<char> {
    "node"@ + crate::text::dec_digits(uid as nat)
        + " [fillcolor=\"lightblue\",style=filled,shape=box,labeljust=l,class=\"node\",id=\"node"@
        + crate::text::dec_digits(uid as nat) + "\",label=\"node"@ + crate::text::dec_digits(
        uid as nat,
    ) + "\\l"@ + labels_text(
        pool,
        sset.items_v(),
        sel_sort(pool, sset.items_v(), idx_list(sset.items_v().len() as int)),
        sset.items_v().len() as int,
    ) + "\"];\n"@
}

/// The DOT text of one node: its label with the items in display order,
/// then its edges.
pub open spec fn node_text(pool: Seq<Seq<char>>, g: &Graph, k: int) -> Seq<char> {
    let uid = (k + 1) as usize;
    let sset = g.sets_v()[k];
    node_label_text(pool, sset, uid) + (if uid > g.edges_v().len() {
        Seq::<char>::empty()
    } else {
        edges_rows_text(pool, g.edges_v()[uid - 1], uid, g.edges_v()[uid - 1].len() as int)
    })
}

/// The DOT rows of the first `k` nodes.
pub open spec fn nodes_text(pool: Seq<Seq<char>>, g: &Graph, k: int) -> Seq<char>
    decreases k,
{
    if k <= 0 {
        Seq::empty()
    } else {
        nodes_text(pool, g, k - 1) + node_text(pool, g, k - 1)
    }
}

/// The whole DOT rendering.
pub open spec fn dot_text(pool: Seq<Seq<char>>, g: &Graph) -> Seq<char> {
    "digraph {\n"@ + nodes_text(pool, g, g.n()) + "}\n"@
}

/// The item-set graph paired with the pool that resolves its names.
pub struct GraphPrinter<'a> {
    graph: &'a Graph,
    pool: &'a Pool,
}

impl<'a> GraphPrinter<'a> {
    /// The graph being rendered.
    pub closed spec fn graph_s(&self) -> &'a Graph {
        self.graph
    }

    /// The contents of the pool resolving its names.
    pub closed spec fn pool_s(&self) -> Seq<Seq<char>> {
        self.pool@
    }
}

impl Graph {
    /// Pairs the graph with a pool, for the DOT rendering.
    pub fn print<'a>(&'a self, pool: &'a Pool) -> GraphPrinter<'a> {
        GraphPrinter { graph: self, pool }
    }
}

impl<'a> GraphPrinter<'a> {
    /// The DOT form of the graph: one node per state labelled with its
    /// items in a stable order, one labelled edge per transition.
    #[verifier::rlimit(100)]
    #[verifier::spinoff_prover]
    pub fn render(&self) -> (r: String)
        ensures
            r@ == dot_text(self.pool_s(), self.graph_s()),
    {
        let mut out = String::new();
        out.append("digraph {\n");
        let n = self.graph.node_count();
        let mut k: usize = 0;
        while k < n
            invariant
                n == self.graph_s().n(),
                k <= n,
                out@ == "digraph {\n"@ + nodes_text(self.pool_s(), self.graph_s(), k as int),
            decreases n - k,
        {
            let ghost h_node = out@;
            let uid = k + 1;
            out.append("node");
            crate::text::push_usize(&mut out, uid);
            out.append(
                " [fillcolor=\"lightblue\",style=filled,shape=box,labeljust=l,class=\"node\",id=\"node",
            );
            crate::text::push_usize(&mut out, uid);
            out.append("\",label=\"node");
            crate::text::push_usize(&mut out, uid);
            out.append("\\l");
            // the items, in display order
            let sset = self.graph.set(uid);
            let ni = sset.len();
            let mut idxs: Vec<usize> = Vec::new();
            proof {
                assert(idxs@ =~= idx_list(0));
            }
            for q in 0..ni
                invariant
                    ni == sset.seq_v().len(),
                    idxs@ == idx_list(q as int),
            {
                idxs.push(q);
                proof {
                    assert(idxs@ =~= idx_list(q + 1));
                }
            }
            let mut order: Vec<usize> = Vec::new();
            proof {
                assert(forall|i: int| 0 <= i < idxs@.len() ==> (#[trigger] idxs@[i]) < ni);
                assert(order@ + sel_sort(self.pool_s(), sset.items_v(), idxs@) =~= sel_sort(
                    self.pool_s(),
                    sset.items_v(),
                    idx_list(ni as int),
                ));
            }
            while idxs.len() > 0
                invariant
                    ni == sset.seq_v().len(),
                    forall|i: int| 0 <= i < idxs@.len() ==> (#[trigger] idxs@[i]) < ni,
                    forall|i: int| 0 <= i < order@.len() ==> (#[trigger] order@[i]) < ni,
                    sel_sort(self.pool_s(), sset.items_v(), idx_list(ni as int)) == order@
                        + sel_sort(self.pool_s(), sset.items_v(), idxs@),
                decreases idxs@.len(),
            {
                let m = idxs.len();
                let mut best: usize = 0;
                for q in 1..m
                    invariant
                        ni == sset.seq_v().len(),
                        m == idxs@.len(),
                        m > 0,
                        best < m,
                        forall|i: int| 0 <= i < idxs@.len() ==> (#[trigger] idxs@[i]) < ni,
                        best as int == sel_best(
                            self.pool_s(),
                            sset.items_v(),
                            idxs@,
                            q - 1,
                        ),
                {
                    if state_display_lt(self.pool, sset.index(idxs[q]), sset.index(idxs[best])) {
                        best = q;
                    }
                    proof {
                        assert(best as int == sel_best(
                            self.pool_s(),
                            sset.items_v(),
                            idxs@,
                            q as int,
                        ));
                    }
                }
                let ghost pre_idxs = idxs@;
                let ghost pre_order = order@;
                let chosen = idxs[best];
                order.push(chosen);
                idxs.remove(best);
                proof {
                    assert(sel_sort(self.pool_s(), sset.items_v(), pre_idxs) == seq![chosen]
                        + sel_sort(self.pool_s(), sset.items_v(), pre_idxs.remove(best as int)));
                    assert(idxs@ =~= pre_idxs.remove(best as int));
                    assert(order@ =~= pre_order.push(chosen));
                    assert(pre_order + (seq![chosen] + sel_sort(
                        self.pool_s(),
                        sset.items_v(),
                        idxs@,
                    )) =~= order@ + sel_sort(self.pool_s(), sset.items_v(), idxs@));
                }
            }
            proof {
                assert(sel_sort(self.pool_s(), sset.items_v(), idx_list(ni as int)) =~= order@);
                assert(order@.len() == idx_list(ni as int).len()) by {
                    lemma_sel_sort_len(self.pool_s(), sset.items_v(), idx_list(ni as int));
                }
            }
            let ghost h_labels = out@;
            let no = order.len();
            for q in 0..no
                invariant
                    ni == sset.seq_v().len(),
                    no == order@.len(),
                    forall|i: int| 0 <= i < order@.len() ==> (#[trigger] order@[i]) < ni,
                    out@ == h_labels + labels_text(
                        self.pool_s(),
                        sset.items_v(),
                        order@,
                        q as int,
                    ),
                    self.pool_s() == self.pool@,
            {
                sset.index(order[q]).display(self.pool).append_to(&mut out);
                out.append("\\l");
                proof {
                    assert(out@ =~= h_labels + labels_text(
                        self.pool_s(),
                        sset.items_v(),
                        order@,
                        q + 1,
                    ));
                }
            }
            out.append("\"];\n");
            proof {
                assert(out@ =~= h_node + node_label_text(self.pool_s(), *sset, uid));
            }
            if uid <= self.graph.edge_count() {
                let es = self.graph.edges(uid);
                let ne = es.len();
                let ghost h_edges = out@;
                for e in 0..ne
                    invariant
                        ne == es@.len(),
                        es@ == self.graph_s().edges_v()[uid - 1],
                        uid >= 1,
                        out@ == h_edges + edges_rows_text(self.pool_s(), es@, uid, e as int),
                        self.pool_s() == self.pool@,
                {
                    let (t, succ) = es[e];
                    out.append("node");
                    crate::text::push_usize(&mut out, uid);
                    out.append(" -> node");
                    crate::text::push_usize(&mut out, succ);
                    out.append(" [label=\"");
                    append_token(&mut out, self.pool, &t);
                    out.append("\",class=\"from-node");
                    crate::text::push_usize(&mut out, uid);
                    out.append(" to-node");
                    crate::text::push_usize(&mut out, succ);
                    out.append("\"]\n");
                    proof {
                        assert(out@ =~= h_edges + edges_rows_text(
                            self.pool_s(),
                            es@,
                            uid,
                            e + 1,
                        ));
                    }
                }
            }
            proof {
                assert(*sset == self.graph_s().sets_v()[k as int]);
                assert(out@ == h_node + node_text(self.pool_s(), self.graph_s(), k as int));
                assert(out@ =~= "digraph {\n"@ + nodes_text(
                    self.pool_s(),
                    self.graph_s(),
                    k + 1,
                ));
            }
            k = uid;
        }
        out.append("}\n");
        proof {
            assert(out@ =~= dot_text(self.pool_s(), self.graph_s()));
        }
        out
    }
}

/// A display ordering holds as many indices as it was given.
pub proof fn lemma_sel_sort_len(pool: Seq<Seq<char>>, s: Seq<State>, idxs: Seq<usize>)
    ensures
        sel_sort(pool, s, idxs).len() == idxs.len(),
    decreases idxs.len(),
{
    if idxs.len() > 0 {
        let b = sel_best(pool, s, idxs, idxs.len() - 1);
        lemma_sel_best_range(pool, s, idxs, idxs.len() - 1);
        lemma_sel_sort_len(pool, s, idxs.remove(b));
    }
}

/// The chosen index lies within the scanned range.
pub proof fn lemma_sel_best_range(pool: Seq<Seq<char>>, s: Seq<State>, idxs: Seq<usize>, i: int)
    requires
        i >= 0,
    ensures
        0 <= sel_best(pool, s, idxs, i) <= i,
    decreases i,
{
    if i > 0 {
        lemma_sel_best_range(pool, s, idxs, i - 1);
    }
}

/// State deduplication: no two states of a built graph hold equal
/// item sets.
pub proof fn lemma_state_dedup(g: &Graph, entries: Seq<EntryView>, k1: int, k2: int)
    requires
        g.wf(entries),
        0 <= k1 < k2 < g.n(),
    ensures
        g.set_at(k1) != g.set_at(k2),
{
}

/// The closure of a set is unique.
pub proof fn lemma_closure_unique(
    entries: Seq<EntryView>,
    s: Set<ItemView>,
    c1: Set<ItemView>,
    c2: Set<ItemView>,
)
    requires
        is_closure_of(entries, s, c1),
        is_closure_of(entries, s, c2),
    ensures
        c1 == c2,
{
    assert(is_closed(entries, c1));
    assert(is_closed(entries, c2));
    assert(c1.subset_of(c2));
    assert(c2.subset_of(c1));
    assert(c1 =~= c2);
}

/// Closing an already closed set gives it back.
pub proof fn lemma_closure_of_closed(entries: Seq<EntryView>, s: Set<ItemView>, c: Set<ItemView>)
    requires
        is_closed(entries, s),
        is_closure_of(entries, s, c),
    ensures
        c == s,
{
    assert(c.subset_of(s));
    assert(c =~= s);
}

/// Closure idempotence: the closure of a closure is the closure itself.
pub proof fn lemma_closure_idempotent(
    entries: Seq<EntryView>,
    s: Set<ItemView>,
    c: Set<ItemView>,
    cc: Set<ItemView>,
)
    requires
        is_closure_of(entries, s, c),
        is_closure_of(entries, c, cc),
    ensures
        cc == c,
{
    lemma_closure_of_closed(entries, c, cc);
}

/// Goto compositionality on closed sets: when `s` and `goto(s, x)` are
/// both closure-closed, advancing the closure of `s` equals the closure
/// of the advance of `s`.
pub proof fn lemma_goto_compositional(
    entries: Seq<EntryView>,
    s: Set<ItemView>,
    x: Token,
    c: Set<ItemView>,
    gc: Set<ItemView>,
)
    requires
        is_closed(entries, s),
        is_closed(entries, spec_goto(s, x)),
        is_closure_of(entries, s, c),
        is_closure_of(entries, spec_goto(s, x), gc),
    ensures
        spec_goto(c, x) == gc,
{
    lemma_closure_of_closed(entries, s, c);
    lemma_closure_of_closed(entries, spec_goto(s, x), gc);
}

/// The canonical item-set collection: the node at position `k` holds the
/// state with uid `k + 1`, its item set, and its outgoing transitions as
/// `(symbol, successor uid)` pairs.
#[derive(Debug)]
pub struct Graph {
    sets: Vec<StateSet>,
    edges: Vec<Vec<(Token, Uid)>>,
}

impl Graph {
    /// The item sets, by uid minus one.
    pub closed spec fn sets_v(&self) -> Seq<StateSet> {
        self.sets@
    }

    /// The transition lists, by uid minus one.
    pub closed spec fn edges_v(&self) -> Seq<Seq<(Token, Uid)>> {
        Seq::new(self.edges@.len(), |k: int| self.edges@[k]@)
    }

    /// The number of states.
    pub open spec fn n(&self) -> int {
        self.sets_v().len() as int
    }

    /// The item set of the state at position `k` (uid `k + 1`).
    pub open spec fn set_at(&self, k: int) -> Set<ItemView> {
        self.sets_v()[k]@
    }

    /// The grammar-independent part of the construction's guarantees:
    /// one transition list per state, canonical well-formed sets, and
    /// transitions in ascending symbol order.
    pub open spec fn base_wf(&self) -> bool {
        &&& self.edges_v().len() == self.n()
        &&& forall|k: int| 0 <= k < self.n() ==> (#[trigger] self.sets_v()[k]).wf()
        &&& forall|k: int, it: ItemView|
            0 <= k < self.n() && #[trigger] self.set_at(k).contains(it) ==> la_ok(it)
        &&& forall|k: int, e1: int, e2: int|
            0 <= k < self.n() && 0 <= e1 < e2 < self.edges_v()[k].len() ==> token_lt(
                (#[trigger] self.edges_v()[k][e1]).0,
                (#[trigger] self.edges_v()[k][e2]).0,
            )
    }

    /// Everything the construction guarantees: canonical well-formed
    /// sets, all closure-closed, all items from the grammar, no item set
    /// twice, and for each state one transition per outgoing symbol, in
    /// ascending symbol order, leading to the closure of the goto set.
    pub open spec fn wf(&self, entries: Seq<EntryView>) -> bool {
        &&& self.base_wf()
        &&& forall|k: int| 0 <= k < self.n() ==> is_closed(entries, #[trigger] self.set_at(k))
        &&& forall|k: int, it: ItemView|
            0 <= k < self.n() && #[trigger] self.set_at(k).contains(it) ==> item_from(entries, it)
        &&& forall|k1: int, k2: int|
            0 <= k1 < k2 < self.n() ==> self.set_at(k1) != self.set_at(k2)
        &&& forall|k: int, e: int|
            0 <= k < self.n() && 0 <= e < self.edges_v()[k].len() ==> {
                let edge = #[trigger] self.edges_v()[k][e];
                &&& 1 <= edge.1 <= self.n()
                &&& is_closure_of(
                    entries,
                    spec_goto(self.set_at(k), edge.0),
                    self.set_at(edge.1 - 1),
                )
            }
        &&& forall|k: int, t: Token|
            0 <= k < self.n() && #[trigger] head_syms(self.set_at(k)).contains(t) ==> exists|e: int|
                0 <= e < self.edges_v()[k].len() && (#[trigger] self.edges_v()[k][e]).0 == t
        &&& forall|k: int, e: int|
            0 <= k < self.n() && 0 <= e < self.edges_v()[k].len() ==> head_syms(
                self.set_at(k),
            ).contains((#[trigger] self.edges_v()[k][e]).0)
    }

    /// The number of states.
    pub fn node_count(&self) -> (r: usize)
        ensures
            r == self.n(),
    {
        self.sets.len()
    }

    /// The item set of the state with uid `uid`.
    pub fn set(&self, uid: Uid) -> (r: &StateSet)
        requires
            1 <= uid <= self.n(),
        ensures
            *r == self.sets_v()[uid - 1],
    {
        &self.sets[uid - 1]
    }

    /// The number of transition lists (always the number of states for a
    /// built graph).
    pub fn edge_count(&self) -> (r: usize)
        ensures
            r == self.edges_v().len(),
    {
        self.edges.len()
    }

    /// The transitions of the state with uid `uid`.
    pub fn edges(&self, uid: Uid) -> (r: &Vec<(Token, Uid)>)
        requires
            1 <= uid <= self.edges_v().len(),
        ensures
            r@ == self.edges_v()[uid - 1],
    {
        &self.edges[uid - 1]
    }
}

/// The invariants of the growing state list: canonical well-formed
/// sets, all closure-closed, all items from the grammar, no set twice.
spec fn inv_sets(entries: Seq<EntryView>, ss: Seq<StateSet>) -> bool {
    &&& forall|k: int| 0 <= k < ss.len() ==> (#[trigger] ss[k]).wf()
    &&& forall|k: int| 0 <= k < ss.len() ==> is_closed(entries, (#[trigger] ss[k])@)
    &&& forall|k: int, it: ItemView|
        0 <= k < ss.len() && #[trigger] ss[k]@.contains(it) ==> la_ok(it)
    &&& forall|k: int, it: ItemView|
        0 <= k < ss.len() && #[trigger] ss[k]@.contains(it) ==> item_from(entries, it)
    &&& forall|k1: int, k2: int| 0 <= k1 < k2 < ss.len() ==> (#[trigger] ss[k1])@ != (#[trigger] ss[k2])@
}

/// The transition lists of a growing edge table, as sequences.
spec fn evs(edges: Seq<Vec<(Token, Uid)>>) -> Seq<Seq<(Token, Uid)>> {
    Seq::new(edges.len(), |p: int| edges[p]@)
}

/// State `kk + 1` is the target of a transition of an earlier state.
pub open spec fn discovered(edges: Seq<Seq<(Token, Uid)>>, kk: int) -> bool {
    exists|p: int, e: int|
        0 <= p < kk && p < edges.len() && 0 <= e < edges[p].len() && (#[trigger] edges[p][e]).1
            == kk + 1
}

/// The invariants of one finished transition list for the state holding
/// `pset`: valid successors that hold the closure of the goto set, one
/// edge per outgoing symbol, in ascending symbol order.
spec fn edge_list_ok(
    entries: Seq<EntryView>,
    ss: Seq<StateSet>,
    pset: Set<ItemView>,
    es: Seq<(Token, Uid)>,
) -> bool {
    &&& forall|e: int|
        0 <= e < es.len() ==> 1 <= (#[trigger] es[e]).1 <= ss.len() && is_closure_of(
            entries,
            spec_goto(pset, es[e].0),
            ss[es[e].1 - 1]@,
        )
    &&& forall|e1: int, e2: int|
        0 <= e1 < e2 < es.len() ==> token_lt((#[trigger] es[e1]).0, (#[trigger] es[e2]).0)
    &&& forall|t: Token|
        #[trigger] head_syms(pset).contains(t) ==> exists|e: int|
            0 <= e < es.len() && (#[trigger] es[e]).0 == t
    &&& forall|e: int| 0 <= e < es.len() ==> head_syms(pset).contains((#[trigger] es[e]).0)
}

/// A finished transition list stays valid when the state list grows.
proof fn lemma_edge_list_grow(
    entries: Seq<EntryView>,
    ss1: Seq<StateSet>,
    ss2: Seq<StateSet>,
    pset: Set<ItemView>,
    es: Seq<(Token, Uid)>,
)
    requires
        edge_list_ok(entries, ss1, pset, es),
        ss1.len() <= ss2.len(),
        forall|k: int| 0 <= k < ss1.len() ==> ss2[k] == ss1[k],
    ensures
        edge_list_ok(entries, ss2, pset, es),
{
    assert forall|e: int|
        0 <= e < es.len() implies 1 <= (#[trigger] es[e]).1 <= ss2.len() && is_closure_of(
        entries,
        spec_goto(pset, es[e].0),
        ss2[es[e].1 - 1]@,
    ) by {
        assert(es[e].1 <= ss1.len());
        assert(ss2[es[e].1 - 1] == ss1[es[e].1 - 1]);
    }
}

/// The position of a set equal to `target` among `sets`, if any.
fn find_node(sets: &Vec<StateSet>, target: &StateSet) -> (r: Option<usize>)
    requires
        forall|k: int| 0 <= k < sets@.len() ==> (#[trigger] sets@[k]).wf(),
        target.wf(),
    ensures
        match r {
            Some(q) => q < sets@.len() && sets@[q as int]@ == target@,
            None => forall|k: int| 0 <= k < sets@.len() ==> (#[trigger] sets@[k])@ != target@,
        },
{
    let n = sets.len();
    for k in 0..n
        invariant
            n == sets@.len(),
            forall|q: int| 0 <= q < n ==> (#[trigger] sets@[q]).wf(),
            target.wf(),
            forall|q: int| 0 <= q < k ==> (#[trigger] sets@[q])@ != target@,
    {
        if sets[k].set_eq(target) {
            return Some(k);
        }
    }
    None
}

/// Advances state `p` past `sym`, closes the result, and finds or
/// appends the state holding it; returns that state's uid.
fn goto_target(grammar: &Grammar, sets: &mut Vec<StateSet>, p: usize, sym: Token) -> (target: Uid)
    requires
        inv_sets(grammar.ents(), old(sets)@),
        p < old(sets)@.len(),
    ensures
        inv_sets(grammar.ents(), final(sets)@),
        final(sets)@.len() >= old(sets)@.len(),
        forall|k: int| 0 <= k < old(sets)@.len() ==> final(sets)@[k] == old(sets)@[k],
        1 <= target <= final(sets)@.len(),
        // a fresh state takes the next uid; otherwise nothing is added
        final(sets)@.len() == old(sets)@.len() || (final(sets)@.len() == old(sets)@.len() + 1
            && target == final(sets)@.len()),
        is_closure_of(
            grammar.ents(),
            spec_goto(old(sets)@[p as int]@, sym),
            final(sets)@[target - 1]@,
        ),
{
    let ghost ents = grammar.ents();
    let ghost pset = sets@[p as int]@;
    let adv = advance_states(sym, &sets[p]);
    proof {
        assert forall|it: ItemView| adv@.contains(it) implies #[trigger] item_from(ents, it) by {
            let src = choose|src: ItemView|
                #[trigger] pset.contains(src) && src.after.len() > 0 && src.after[0] == sym && it
                    == advance_item(src);
            lemma_advance_from(ents, src);
        }
        assert forall|it: ItemView| adv@.contains(it) implies #[trigger] la_ok(it) by {
            let src = choose|src: ItemView|
                #[trigger] pset.contains(src) && src.after.len() > 0 && src.after[0] == sym && it
                    == advance_item(src);
            assert(la_ok(src));
            assert(it.lookahead == src.lookahead);
        }
    }
    let closed = closure(grammar, adv);
    let nlen = sets.len();
    match find_node(&sets, &closed) {
        Some(q) => {
            proof {
                assert(sets@[q as int]@ == closed@);
                lemma_closure_unique(ents, spec_goto(pset, sym), closed@, sets@[q as int]@);
            }
            q + 1
        },
        None => {
            proof {
                assert forall|it: ItemView| closed@.contains(it) implies #[trigger] item_from(
                    ents,
                    it,
                ) by {}
            }
            sets.push(closed);
            sets.len()
        },
    }
}

impl Graph {
    /// Builds the canonical collection: state 1 is the closure of the
    /// seed; each state's goto set is closed and either found among the
    /// existing states or appended under a fresh uid, and the transition
    /// is recorded.
    pub fn make(grammar: &Grammar, states: StateSet) -> (g: Graph)
        requires
            states.wf(),
            forall|it: ItemView| states@.contains(it) ==> #[trigger] item_from(
                grammar.ents(),
                it,
            ),
            forall|it: ItemView| states@.contains(it) ==> #[trigger] la_ok(it),
        ensures
            g.wf(grammar.ents()),
            g.n() >= 1,
            is_closure_of(grammar.ents(), states@, g.set_at(0)),
            // no state beyond the start is spurious: each is the target
            // of a transition of an earlier state
            forall|k: int| 1 <= k < g.n() ==> discovered(g.edges_v(), k),
    {
        let ghost ents = grammar.ents();
        let ghost s0 = states@;
        let c0 = closure(grammar, states);
        let mut sets: Vec<StateSet> = Vec::new();
        let mut edges: Vec<Vec<(Token, Uid)>> = Vec::new();
        sets.push(c0);
        let mut p: usize = 0;
        while p < sets.len()
            invariant
                ents == grammar.ents(),
                inv_sets(ents, sets@),
                edges@.len() == p,
                p <= sets@.len(),
                sets@.len() >= 1,
                is_closure_of(ents, s0, sets@[0]@),
                forall|k: int|
                    0 <= k < p ==> edge_list_ok(ents, sets@, (#[trigger] sets@[k])@, edges@[k]@),
                forall|kk: int| 1 <= kk < sets@.len() ==> discovered(evs(edges@), kk),
            decreases usize::MAX - p,
        {
            let syms = out_edges(&sets[p]);
            let ghost symseq = syms@;
            let ghost pset = sets@[p as int]@;
            let mut elist: Vec<(Token, Uid)> = Vec::new();
            let ns = syms.len();
            for si in 0..ns
                invariant
                    ents == grammar.ents(),
                    inv_sets(ents, sets@),
                    p < sets@.len(),
                    ns == symseq.len(),
                    syms@ == symseq,
                    tok_sorted(symseq),
                    toks(symseq) == head_syms(pset),
                    pset == sets@[p as int]@,
                    elist@.len() == si,
                    forall|e: int| 0 <= e < si ==> (#[trigger] elist@[e]).0 == symseq[e],
                    forall|e: int|
                        0 <= e < si ==> 1 <= (#[trigger] elist@[e]).1 <= sets@.len()
                            && is_closure_of(
                            ents,
                            spec_goto(pset, elist@[e].0),
                            sets@[elist@[e].1 - 1]@,
                        ),
                    sets@.len() >= 1,
                    is_closure_of(ents, s0, sets@[0]@),
                    edges@.len() == p,
                    forall|k: int|
                        0 <= k < p ==> edge_list_ok(
                            ents,
                            sets@,
                            (#[trigger] sets@[k])@,
                            edges@[k]@,
                        ),
                    forall|kk: int|
                        1 <= kk < sets@.len() ==> discovered(evs(edges@), kk) || (exists|e: int|
                            0 <= e < elist@.len() && (#[trigger] elist@[e]).1 == kk + 1 && p
                                < kk),
            {
                let sym = syms[si];
                let ghost pre_sets = sets@;
                let ghost pre_elist = elist@;
                let target = goto_target(grammar, &mut sets, p, sym);
                elist.push((sym, target));
                proof {
                    assert forall|kk: int| 1 <= kk < sets@.len() implies discovered(
                        evs(edges@),
                        kk,
                    ) || (exists|e: int|
                        0 <= e < elist@.len() && (#[trigger] elist@[e]).1 == kk + 1 && p
                            < kk) by {
                        if kk < pre_sets.len() {
                            if !discovered(evs(edges@), kk) {
                                let e = choose|e: int|
                                    0 <= e < pre_elist.len() && (#[trigger] pre_elist[e]).1 == kk
                                        + 1 && p < kk;
                                assert((elist@[e]).1 == kk + 1);
                            }
                        } else {
                            assert(target == sets@.len());
                            assert((elist@[elist@.len() - 1]).1 == kk + 1);
                        }
                    }
                }
                proof {
                    assert forall|k: int|
                        0 <= k < p implies edge_list_ok(
                        ents,
                        sets@,
                        (#[trigger] sets@[k])@,
                        edges@[k]@,
                    ) by {
                        assert(sets@[k] == pre_sets[k]);
                        lemma_edge_list_grow(ents, pre_sets, sets@, pre_sets[k]@, edges@[k]@);
                    }
                    assert forall|e: int|
                        0 <= e < si + 1 implies 1 <= (#[trigger] elist@[e]).1 <= sets@.len()
                            && is_closure_of(
                            ents,
                            spec_goto(pset, elist@[e].0),
                            sets@[elist@[e].1 - 1]@,
                        ) by {
                        if e < si {
                            assert(elist@[e].1 <= pre_sets.len());
                            assert(sets@[elist@[e].1 - 1] == pre_sets[elist@[e].1 - 1]);
                        }
                    }
                }
            }
            let ghost pre_edges = edges@;
            edges.push(elist);
            proof {
                assert forall|kk: int| 1 <= kk < sets@.len() implies discovered(
                    evs(edges@),
                    kk,
                ) by {
                    if discovered(evs(pre_edges), kk) {
                        let (pp, e) = choose|pp: int, e: int|
                            0 <= pp < kk && pp < evs(pre_edges).len() && 0 <= e < evs(
                                pre_edges,
                            )[pp].len() && (#[trigger] evs(pre_edges)[pp][e]).1 == kk + 1;
                        assert(evs(edges@)[pp] == evs(pre_edges)[pp]);
                        assert((evs(edges@)[pp][e]).1 == kk + 1);
                        assert(discovered(evs(edges@), kk));
                    } else {
                        let e = choose|e: int|
                            0 <= e < elist@.len() && (#[trigger] elist@[e]).1 == kk + 1 && p
                                < kk;
                        assert(evs(edges@)[p as int] == elist@);
                        assert((evs(edges@)[p as int][e]).1 == kk + 1);
                        assert(discovered(evs(edges@), kk));
                    }
                }
                assert(edges@[p as int]@ == elist@);
                assert forall|t: Token| #[trigger] head_syms(pset).contains(t) implies exists|
                    e: int,
                |
                    0 <= e < elist@.len() && (#[trigger] elist@[e]).0 == t by {
                    assert(toks(symseq).contains(t));
                    let e = choose|e: int| 0 <= e < symseq.len() && symseq[e] == t;
                    assert((elist@[e]).0 == t);
                }
                assert forall|e: int| 0 <= e < elist@.len() implies head_syms(pset).contains(
                    (#[trigger] elist@[e]).0,
                ) by {
                    assert(symseq.contains(symseq[e]));
                    assert(toks(symseq).contains(symseq[e]));
                }
                assert(edge_list_ok(ents, sets@, pset, elist@));
            }
            p += 1;
        }
        let g = Graph { sets, edges };
        proof {
            assert(g.sets_v() == sets@);
            assert(forall|k: int| 0 <= k < g.edges_v().len() ==> g.edges_v()[k] == edges@[k]@);
            assert(g.edges_v() =~= evs(edges@));
            assert forall|k: int, e: int|
                0 <= k < g.n() && 0 <= e < g.edges_v()[k].len() implies {
                let edge = #[trigger] g.edges_v()[k][e];
                &&& 1 <= edge.1 <= g.n()
                &&& is_closure_of(ents, spec_goto(g.set_at(k), edge.0), g.set_at(edge.1 - 1))
            } by {
                assert(edge_list_ok(ents, sets@, sets@[k]@, edges@[k]@));
                assert(g.edges_v()[k][e] == edges@[k]@[e]);
            }
            assert forall|k: int, t: Token|
                0 <= k < g.n() && #[trigger] head_syms(g.set_at(k)).contains(t) implies exists|
                e: int,
            |
                0 <= e < g.edges_v()[k].len() && (#[trigger] g.edges_v()[k][e]).0 == t by {
                assert(edge_list_ok(ents, sets@, sets@[k]@, edges@[k]@));
                let e = choose|e: int|
                    0 <= e < edges@[k]@.len() && (#[trigger] edges@[k]@[e]).0 == t;
                assert((g.edges_v()[k][e]).0 == t);
            }
        }
        g
    }
}

} // verus!
