//! The grammar model: tokens, productions, the grammar builder, and the
//! FIRST-set computation over token sequences.

use vstd::prelude::*;
use vstd::string::StringExecFns;

use crate::generator::{item_from, State};
use crate::string_pool::{Id, Pool};
use crate::tokset::{tok_sorted, toks, ts_contains, ts_copy, ts_insert, ts_remove, ts_union};

verus! {

/// A grammar symbol: a terminal, a non-terminal, the internal ε marker
/// (used only inside FIRST sets), or the synthetic end-of-input marker.
#[derive(Clone, Copy, Debug, PartialEq, Eq, Structural, Hash)]
pub enum Token {
    Term(Id),
    NonTerm(Id),
    Empty,
    Eof,
}

/// Rank of a token's variant; the first component of the total order.
pub open spec fn token_rank(t: Token) -> int {
    match t {
        Token::Term(_) => 0,
        Token::NonTerm(_) => 1,
        Token::Empty => 2,
        Token::Eof => 3,
    }
}

/// The interned identifier carried by a token, if any.
pub open spec fn token_num(t: Token) -> int {
    match t {
        Token::Term(i) => i.idx(),
        Token::NonTerm(i) => i.idx(),
        Token::Empty => 0,
        Token::Eof => 0,
    }
}

/// The strict total order on tokens: by variant, then by identifier.
pub open spec fn token_lt(a: Token, b: Token) -> bool {
    token_rank(a) < token_rank(b) || (token_rank(a) == token_rank(b) && token_num(a) < token_num(
        b,
    ))
}

/// `token_lt` is a strict total order.
pub proof fn lemma_token_order(a: Token, b: Token)
    ensures
        token_lt(a, b) || token_lt(b, a) || a == b,
        !(token_lt(a, b) && token_lt(b, a)),
        token_lt(a, b) ==> a != b,
{
}

fn token_rank_x(t: &Token) -> (r: u8)
    ensures
        r as int == token_rank(*t),
{
    match t {
        Token::Term(_) => 0,
        Token::NonTerm(_) => 1,
        Token::Empty => 2,
        Token::Eof => 3,
    }
}

fn token_num_x(t: &Token) -> (r: usize)
    ensures
        r as int == token_num(*t),
{
    match t {
        Token::Term(i) => i.0,
        Token::NonTerm(i) => i.0,
        Token::Empty => 0,
        Token::Eof => 0,
    }
}

/// Decides the strict total order on tokens.
pub fn token_before(a: &Token, b: &Token) -> (r: bool)
    ensures
        r == token_lt(*a, *b),
{
    let ra = token_rank_x(a);
    let rb = token_rank_x(b);
    ra < rb || (ra == rb && token_num_x(a) < token_num_x(b))
}

/// Whether the identifier a token carries, if any, is interned in `pool`.
pub open spec fn tok_valid(pool: Seq<Seq<char>>, t: Token) -> bool {
    match t {
        Token::Term(i) => i.idx() < pool.len(),
        Token::NonTerm(i) => i.idx() < pool.len(),
        Token::Empty => true,
        Token::Eof => true,
    }
}

/// Decides whether a token's identifier is interned in `pool`.
pub fn tok_valid_x(pool: &Pool, t: &Token) -> (r: bool)
    ensures
        r == tok_valid(pool@, *t),
{
    match t {
        Token::Term(i) => i.0 < pool.len(),
        Token::NonTerm(i) => i.0 < pool.len(),
        Token::Empty => true,
        Token::Eof => true,
    }
}

/// The display text of a token: a terminal in backquotes, a
/// non-terminal by name, fixed marks for ε and end-of-input.
pub open spec fn token_text(pool: Seq<Seq<char>>, t: Token) -> Seq<char> {
    match t {
        Token::Term(id) => "`"@ + pool[id.idx()] + "`"@,
        Token::NonTerm(id) => pool[id.idx()],
        Token::Empty => "\u{1d6c6}!"@,
        Token::Eof => "\u{ff04}"@,
    }
}

/// A pooled name, or a placeholder for an index the pool does not hold.
pub open spec fn name_text_or_hole(pool: Seq<Seq<char>>, id: Id) -> Seq<char> {
    if id.idx() < pool.len() {
        pool[id.idx()]
    } else {
        "?"@
    }
}

/// The display text of a token, or a placeholder for an identifier the
/// pool does not hold.
pub open spec fn token_text_or_hole(pool: Seq<Seq<char>>, t: Token) -> Seq<char> {
    if tok_valid(pool, t) {
        token_text(pool, t)
    } else {
        "?"@
    }
}

/// The display text of the first `n` tokens of `s`, each followed by a
/// space.
pub open spec fn toks_text(pool: Seq<Seq<char>>, s: Seq<Token>, n: int) -> Seq<char>
    decreases n,
{
    if n <= 0 {
        Seq::empty()
    } else {
        toks_text(pool, s, n - 1) + token_text_or_hole(pool, s[n - 1]) + " "@
    }
}

/// A token paired with the pool that resolves its name.
pub struct TokenDisplay<'a> {
    token: Token,
    pool: &'a Pool,
}

impl<'a> TokenDisplay<'a> {
    /// The token being displayed.
    pub closed spec fn token_s(&self) -> Token {
        self.token
    }

    /// The contents of the pool resolving its name.
    pub closed spec fn pool_s(&self) -> Seq<Seq<char>> {
        self.pool@
    }

    /// The human-readable form: a terminal in backquotes, a non-terminal
    /// by name, and fixed marks for ε and end-of-input.
    pub fn render(&self) -> (r: String)
        requires
            tok_valid(self.pool_s(), self.token_s()),
        ensures
            r@ == token_text(self.pool_s(), self.token_s()),
    {
        let mut out = String::new();
        self.append_to(&mut out);
        out
    }

    /// Appends the human-readable form to `out`.
    pub fn append_to(&self, out: &mut String)
        requires
            tok_valid(self.pool_s(), self.token_s()),
        ensures
            final(out)@ == old(out)@ + token_text(self.pool_s(), self.token_s()),
    {
        let ghost pre = out@;
        match self.token {
            Token::Term(id) => {
                out.append("`");
                out.append(self.pool.get(id));
                out.append("`");
            },
            Token::NonTerm(id) => {
                out.append(self.pool.get(id));
            },
            Token::Empty => {
                out.append("\u{1d6c6}!");
            },
            Token::Eof => {
                out.append("\u{ff04}");
            },
        }
        proof {
            assert(out@ =~= pre + token_text(self.pool_s(), self.token_s()));
        }
    }
}

impl Token {
    /// Pairs the token with a pool for display.
    pub fn display<'a>(&self, pool: &'a Pool) -> (r: TokenDisplay<'a>)
        ensures
            r.token_s() == *self,
            r.pool_s() == pool@,
    {
        TokenDisplay { token: *self, pool }
    }
}

impl Token {
    /// The identifier when this is a terminal.
    pub fn term(self) -> (r: Option<Id>)
        ensures
            r == (match self {
                Token::Term(i) => Some(i),
                _ => None::<Id>,
            }),
    {
        match self {
            Token::Term(i) => Some(i),
            _ => None,
        }
    }

    /// `Some(())` exactly when this is the end-of-input marker.
    pub fn eof(self) -> (r: Option<()>)
        ensures
            r.is_some() <==> self == Token::Eof,
    {
        match self {
            Token::Eof => Some(()),
            _ => None,
        }
    }

    /// Applies `non_term` or `term` to the carried identifier, or hands
    /// `default` back for the two marker tokens.
    pub fn fold<T, F: FnOnce(Id) -> T, G: FnOnce(Id) -> T>(
        self,
        non_term: F,
        term: G,
        default: T,
    ) -> (r: T)
        requires
            forall|i: Id| #[trigger] non_term.requires((i,)),
            forall|i: Id| #[trigger] term.requires((i,)),
        ensures
            match self {
                Token::Term(i) => call_ensures(term, (i,), r),
                Token::NonTerm(i) => call_ensures(non_term, (i,), r),
                Token::Empty => r == default,
                Token::Eof => r == default,
            },
    {
        match self {
            Token::Term(id) => term(id),
            Token::NonTerm(id) => non_term(id),
            _ => default,
        }
    }

    /// The identifier when this is a non-terminal.
    pub fn non_term(self) -> (r: Option<Id>)
        ensures
            r == (match self {
                Token::NonTerm(i) => Some(i),
                _ => None::<Id>,
            }),
    {
        match self {
            Token::NonTerm(i) => Some(i),
            _ => None,
        }
    }
}

/// One production: a rule name, the right-hand side, and the semantic
/// action text spliced into the generated parser at reduction.
#[verifier::ext_equal]
pub struct EntryView {
    pub rule_name: Id,
    pub tokens: Seq<Token>,
    pub code: Seq<char>,
}

/// One production of the grammar.
#[derive(Debug, Clone)]
pub struct GrammarEntry {
    rule_name: Id,
    tokens: Vec<Token>,
    code: String,
}

impl View for GrammarEntry {
    type V = EntryView;

    closed spec fn view(&self) -> EntryView {
        EntryView { rule_name: self.rule_name, tokens: self.tokens@, code: self.code@ }
    }
}

impl GrammarEntry {
    /// The name of the rule this production belongs to.
    pub fn rule_name(&self) -> (r: Id)
        ensures
            r == self@.rule_name,
    {
        self.rule_name
    }

    /// The right-hand side of the production.
    pub fn tokens(&self) -> (r: &Vec<Token>)
        ensures
            r@ == self@.tokens,
    {
        &self.tokens
    }

    /// The semantic action text.
    pub fn code(&self) -> (r: &str)
        ensures
            r@ == self@.code,
    {
        self.code.as_str()
    }
}

/// Whether every identifier of one production is interned in `pool`.
pub open spec fn entry_valid(pool: Seq<Seq<char>>, e: EntryView) -> bool {
    &&& e.rule_name.idx() < pool.len()
    &&& forall|j: int| 0 <= j < e.tokens.len() ==> tok_valid(pool, #[trigger] e.tokens[j])
}

/// The display text of one production: its name, an arrow, ε when the
/// right-hand side is empty, and its tokens.
pub open spec fn entry_text(pool: Seq<Seq<char>>, e: EntryView) -> Seq<char> {
    pool[e.rule_name.idx()] + " -> "@ + (if e.tokens.len() == 0 {
        "\u{1d716}"@
    } else {
        Seq::<char>::empty()
    }) + toks_text(pool, e.tokens, e.tokens.len() as int)
}

impl GrammarEntry {
    /// Appends `rule -> tokens` (or ε for an empty right-hand side).
    pub fn display(&self, out: &mut String, pool: &Pool)
        requires
            entry_valid(pool@, self@),
        ensures
            final(out)@ == old(out)@ + entry_text(pool@, self@),
    {
        let ghost pre = out@;
        out.append(pool.get(self.rule_name));
        out.append(" -> ");
        if self.tokens.len() == 0 {
            out.append("\u{1d716}");
        }
        let ghost head = out@;
        let n = self.tokens.len();
        for j in 0..n
            invariant
                n == self.tokens@.len(),
                entry_valid(pool@, self@),
                out@ == head + toks_text(pool@, self@.tokens, j as int),
        {
            let t = self.tokens[j];
            proof {
                assert(tok_valid(pool@, self@.tokens[j as int]));
            }
            t.display(pool).append_to(out);
            out.append(" ");
            proof {
                assert(out@ =~= head + toks_text(pool@, self@.tokens, j + 1));
            }
        }
        proof {
            assert(out@ =~= pre + entry_text(pool@, self@));
        }
    }
}

/// The right-hand sides held by a vector of token vectors.
pub open spec fn rhs_views(r: Seq<Vec<Token>>) -> Seq<Seq<Token>> {
    Seq::new(r.len(), |i: int| r[i]@)
}

/// All right-hand sides declared for `rule`, in declaration order.
pub open spec fn prods_of(entries: Seq<EntryView>, rule: Id) -> Seq<Seq<Token>>
    decreases entries.len(),
{
    if entries.len() == 0 {
        Seq::empty()
    } else {
        let rest = prods_of(entries.drop_last(), rule);
        if entries.last().rule_name == rule {
            rest.push(entries.last().tokens)
        } else {
            rest
        }
    }
}

/// The right-hand side at position `k` of `prods_of` belongs to an entry
/// of the named rule.
pub proof fn lemma_prods_of_mem(entries: Seq<EntryView>, rule: Id, k: int)
    requires
        0 <= k < prods_of(entries, rule).len(),
    ensures
        exists|j: int|
            0 <= j < entries.len() && (#[trigger] entries[j]).rule_name == rule
                && entries[j].tokens == prods_of(entries, rule)[k],
    decreases entries.len(),
{
    assert(entries.len() > 0);
    let pre = prods_of(entries.drop_last(), rule);
    if k < pre.len() {
        lemma_prods_of_mem(entries.drop_last(), rule, k);
        let j = choose|j: int|
            0 <= j < entries.drop_last().len() && (#[trigger] entries.drop_last()[j]).rule_name
                == rule && entries.drop_last()[j].tokens == prods_of(
                entries.drop_last(),
                rule,
            )[k];
        assert(entries[j] == entries.drop_last()[j]);
        assert(prods_of(entries, rule)[k] == pre[k]);
    } else {
        let j = entries.len() - 1;
        assert(entries[j] == entries.last());
        assert(entries.last().rule_name == rule);
        assert(prods_of(entries, rule)[k] == entries.last().tokens);
    }
}

/// Whether a right-hand side of rule `n` starts with `n` itself.
pub open spec fn is_left_rec(p: Seq<Token>, n: Id) -> bool {
    p.len() > 0 && p[0] == Token::NonTerm(n)
}

/// The right-hand sides among `prods` that are not left recursive in `n`.
pub open spec fn non_rec_prods(prods: Seq<Seq<Token>>, n: Id) -> Seq<Seq<Token>>
    decreases prods.len(),
{
    if prods.len() == 0 {
        Seq::empty()
    } else {
        let rest = non_rec_prods(prods.drop_last(), n);
        if is_left_rec(prods.last(), n) {
            rest
        } else {
            rest.push(prods.last())
        }
    }
}

/// The tails of the right-hand sides among `prods` that are left recursive
/// in `n`.
pub open spec fn rec_tails(prods: Seq<Seq<Token>>, n: Id) -> Seq<Seq<Token>>
    decreases prods.len(),
{
    if prods.len() == 0 {
        Seq::empty()
    } else {
        let rest = rec_tails(prods.drop_last(), n);
        if is_left_rec(prods.last(), n) {
            rest.push(prods.last().drop_first())
        } else {
            rest
        }
    }
}

/// There is a left-recursive right-hand side exactly when `rec_tails` is
/// non-empty.
pub proof fn lemma_rec_tails_len(prods: Seq<Seq<Token>>, n: Id)
    ensures
        rec_tails(prods, n).len() == 0 <==> (forall|j: int|
            0 <= j < prods.len() ==> !is_left_rec(#[trigger] prods[j], n)),
    decreases prods.len(),
{
    if prods.len() > 0 {
        lemma_rec_tails_len(prods.drop_last(), n);
        assert(forall|j: int| 0 <= j < prods.len() - 1 ==> prods.drop_last()[j] == prods[j]);
        assert(prods.last() == prods[prods.len() - 1]);
    }
}

/// FIRST of the sequences in `prods`, unioned; `fuel` as in `spec_first`.
pub open spec fn first_many(entries: Seq<EntryView>, prods: Seq<Seq<Token>>, fuel: nat) -> Set<
    Token,
>
    decreases fuel, 1int, prods.len(),
{
    if prods.len() == 0 {
        Set::empty()
    } else {
        first_many(entries, prods.drop_last(), fuel).union(
            spec_first(entries, prods.last(), fuel),
        )
    }
}

/// FIRST of a token sequence: classical LR(1) FIRST with ε-propagation.
///
/// A non-terminal is expanded through its non-left-recursive productions
/// first; when that base admits ε, the tails of the left-recursive
/// productions are unioned in. When the set for the head still admits ε
/// (or is empty), ε is removed and FIRST of the rest of the sequence is
/// unioned in. `fuel` bounds the depth of non-terminal expansion; a branch
/// whose fuel runs out contributes the empty set. An ε marker at the head
/// of the sequence (which no well-formed right-hand side holds)
/// contributes the empty set as well.
pub open spec fn spec_first(entries: Seq<EntryView>, seq: Seq<Token>, fuel: nat) -> Set<Token>
    decreases fuel, 0int, seq.len(),
{
    if seq.len() == 0 {
        Set::empty().insert(Token::Empty)
    } else {
        match seq[0] {
            Token::Term(t) => Set::empty().insert(Token::Term(t)),
            Token::Eof => Set::empty().insert(Token::Eof),
            Token::Empty => Set::empty(),
            Token::NonTerm(n) => {
                if fuel == 0 {
                    Set::empty()
                } else {
                    let prods = prods_of(entries, n);
                    let base = first_many(entries, non_rec_prods(prods, n), (fuel - 1) as nat);
                    let with_rec = if base.contains(Token::Empty) && rec_tails(prods, n).len()
                        > 0 {
                        base.remove(Token::Empty).union(
                            first_many(entries, rec_tails(prods, n), (fuel - 1) as nat),
                        )
                    } else {
                        base
                    };
                    if with_rec == Set::<Token>::empty() || with_rec.contains(Token::Empty) {
                        with_rec.remove(Token::Empty).union(
                            spec_first(entries, seq.drop_first(), fuel),
                        )
                    } else {
                        with_rec
                    }
                }
            },
        }
    }
}

/// A FIRST set holds terminals, Eof, or the ε marker: never a
/// non-terminal.
pub proof fn lemma_first_range(entries: Seq<EntryView>, seq: Seq<Token>, fuel: nat, t: Token)
    requires
        spec_first(entries, seq, fuel).contains(t),
    ensures
        t is Term || t is Eof || t is Empty,
    decreases fuel, 0int, seq.len(),
{
    if seq.len() == 0 {
    } else {
        match seq[0] {
            Token::Term(_) => {},
            Token::Eof => {},
            Token::Empty => {},
            Token::NonTerm(n) => {
                if fuel > 0 {
                    let prods = prods_of(entries, n);
                    let base = first_many(entries, non_rec_prods(prods, n), (fuel - 1) as nat);
                    let with_rec = if base.contains(Token::Empty) && rec_tails(prods, n).len()
                        > 0 {
                        base.remove(Token::Empty).union(
                            first_many(entries, rec_tails(prods, n), (fuel - 1) as nat),
                        )
                    } else {
                        base
                    };
                    let in_with_rec = with_rec.contains(t);
                    if in_with_rec {
                        if base.contains(t) {
                            lemma_first_many_range(
                                entries,
                                non_rec_prods(prods, n),
                                (fuel - 1) as nat,
                                t,
                            );
                        } else {
                            lemma_first_many_range(
                                entries,
                                rec_tails(prods, n),
                                (fuel - 1) as nat,
                                t,
                            );
                        }
                    } else {
                        lemma_first_range(entries, seq.drop_first(), fuel, t);
                    }
                }
            },
        }
    }
}

/// As `lemma_first_range`, over a union of FIRST sets.
pub proof fn lemma_first_many_range(
    entries: Seq<EntryView>,
    prods: Seq<Seq<Token>>,
    fuel: nat,
    t: Token,
)
    requires
        first_many(entries, prods, fuel).contains(t),
    ensures
        t is Term || t is Eof || t is Empty,
    decreases fuel, 1int, prods.len(),
{
    if prods.len() > 0 {
        if first_many(entries, prods.drop_last(), fuel).contains(t) {
            lemma_first_many_range(entries, prods.drop_last(), fuel, t);
        } else {
            lemma_first_range(entries, prods.last(), fuel, t);
        }
    }
}

/// The expansion depth that the public FIRST computation grants: enough
/// for any chain of distinct non-terminals.
pub open spec fn default_fuel(entries: Seq<EntryView>) -> nat {
    entries.len()
}

/// The display text of the first `n` productions, one per line.
pub open spec fn grammar_text(pool: Seq<Seq<char>>, ents: Seq<EntryView>, n: int) -> Seq<char>
    decreases n,
{
    if n <= 0 {
        Seq::empty()
    } else {
        grammar_text(pool, ents, n - 1) + entry_text(pool, ents[n - 1]) + "\n"@
    }
}

/// A finished grammar: the interned name pool and the production list,
/// ending in the synthetic start production.
#[derive(Debug, Clone)]
pub struct Grammar {
    pool: Pool,
    entries: Vec<GrammarEntry>,
}

impl Grammar {
    /// The productions, as mathematical values.
    pub closed spec fn ents(&self) -> Seq<EntryView> {
        Seq::new(self.entries@.len(), |i: int| self.entries@[i]@)
    }

    /// The pooled names, as mathematical values.
    pub closed spec fn pool_v(&self) -> Seq<Seq<char>> {
        self.pool@
    }

    /// Every identifier mentioned by the grammar is interned in its pool.
    pub open spec fn wf(&self) -> bool {
        &&& self.pool_wf()
        &&& forall|i: int|
            0 <= i < self.ents().len() ==> (#[trigger] self.ents()[i]).rule_name.idx()
                < self.pool_v().len()
        &&& forall|i: int, j: int|
            0 <= i < self.ents().len() && 0 <= j < self.ents()[i].tokens.len() ==> token_num(
                #[trigger] self.ents()[i].tokens[j],
            ) < self.pool_v().len()
    }

    /// The pool's own invariant: pooled names are distinct.
    pub closed spec fn pool_wf(&self) -> bool {
        self.pool.wf()
    }

    /// Starts an empty grammar builder.
    pub fn builder() -> (b: GrammarBuilder)
        ensures
            b.ents() =~= Seq::<EntryView>::empty(),
            b.wf(),
    {
        GrammarBuilder::new()
    }

    /// The production list.
    pub fn entries(&self) -> (r: &Vec<GrammarEntry>)
        ensures
            r@.len() == self.ents().len(),
            forall|i: int| 0 <= i < r@.len() ==> (#[trigger] r@[i])@ == self.ents()[i],
    {
        &self.entries
    }

    /// The name pool, for resolving identifiers.
    pub fn pool(&self) -> (r: &Pool)
        ensures
            r@ == self.pool_v(),
            self.pool_wf() ==> r.wf(),
    {
        &self.pool
    }

    /// The name pool, for interning further names.
    pub fn pool_mut(&mut self) -> (r: &mut Pool)
        ensures
            *r == old(self).pool_spec(),
            final(self).pool_spec() == *final(r),
            final(self).ents() == old(self).ents(),
    {
        &mut self.pool
    }

    /// The pool as a value; `pool_v` is its contents.
    pub closed spec fn pool_spec(&self) -> Pool {
        self.pool
    }

    /// The grammar as text, one production per line.
    pub fn render(&self) -> (r: String)
        requires
            self.wf(),
        ensures
            r@ == grammar_text(self.pool_v(), self.ents(), self.ents().len() as int),
    {
        let mut out = String::new();
        let n = self.entries.len();
        for i in 0..n
            invariant
                n == self.entries@.len(),
                self.wf(),
                out@ == grammar_text(self.pool_v(), self.ents(), i as int),
        {
            proof {
                assert(self.ents()[i as int] == self.entries@[i as int]@);
            }
            self.entries[i].display(&mut out, &self.pool);
            out.append("\n");
            proof {
                assert(out@ =~= grammar_text(self.pool_v(), self.ents(), i + 1));
            }
        }
        out
    }

    /// FIRST of a token sequence, with the default expansion depth.
    /// The ε marker never stands in a right-hand side, so no argument
    /// sequence may hold it.
    pub fn first(&self, rules: &Vec<Token>) -> (r: Vec<Token>)
        requires
            forall|i: int| 0 <= i < rules@.len() ==> rules@[i] != Token::Empty,
        ensures
            tok_sorted(r@),
            toks(r@) == spec_first(self.ents(), rules@, default_fuel(self.ents())),
    {
        self.first_total(rules)
    }

    /// As `first`, but total: a sequence led by the ε marker (which no
    /// well-formed right-hand side holds) yields the empty set.
    pub(crate) fn first_total(&self, rules: &Vec<Token>) -> (r: Vec<Token>)
        ensures
            tok_sorted(r@),
            toks(r@) == spec_first(self.ents(), rules@, default_fuel(self.ents())),
    {
        let fuel = self.entries.len();
        let r = self.first_fuel(rules, 0, fuel);
        proof {
            assert(rules@.skip(0) =~= rules@);
        }
        r
    }

    /// FIRST of the suffix of `rules` starting at `start`, expanding
    /// non-terminals at most `fuel` levels deep.
    fn first_fuel(&self, rules: &Vec<Token>, start: usize, fuel: usize) -> (r: Vec<Token>)
        requires
            start <= rules@.len(),
        ensures
            tok_sorted(r@),
            toks(r@) == spec_first(self.ents(), rules@.skip(start as int), fuel as nat),
        decreases fuel, rules@.len() - start,
    {
        let ghost suffix = rules@.skip(start as int);
        if start == rules.len() {
            let mut r: Vec<Token> = Vec::new();
            r.push(Token::Empty);
            proof {
                assert(r@.len() == 1 && r@[0] == Token::Empty);
                assert(r@.contains(Token::Empty));
                assert(toks(r@) =~= Set::empty().insert(Token::Empty));
            }
            return r;
        }
        proof {
            assert(suffix[0] == rules@[start as int]);
        }
        match rules[start] {
            Token::Term(t) => {
                let mut r: Vec<Token> = Vec::new();
                r.push(Token::Term(t));
                proof {
                    assert(r@.len() == 1 && r@[0] == Token::Term(t));
                    assert(r@.contains(Token::Term(t)));
                    assert(toks(r@) =~= Set::empty().insert(Token::Term(t)));
                }
                r
            },
            Token::Eof => {
                let mut r: Vec<Token> = Vec::new();
                r.push(Token::Eof);
                proof {
                    assert(r@.len() == 1 && r@[0] == Token::Eof);
                    assert(r@.contains(Token::Eof));
                    assert(toks(r@) =~= Set::empty().insert(Token::Eof));
                }
                r
            },
            Token::Empty => {
                let r: Vec<Token> = Vec::new();
                proof {
                    assert(toks(r@) =~= Set::<Token>::empty());
                }
                r
            },
            Token::NonTerm(n) => {
                if fuel == 0 {
                    let r: Vec<Token> = Vec::new();
                    proof {
                        assert(toks(r@) =~= Set::<Token>::empty());
                    }
                    return r;
                }
                let prods = self.productions(n);
                let ghost pv = rhs_views(prods@);
                let ghost subfuel = (fuel - 1) as nat;
                let mut base: Vec<Token> = Vec::new();
                let np = prods.len();
                proof {
                    assert(toks(base@) =~= Set::<Token>::empty());
                    assert(pv.take(0) =~= Seq::<Seq<Token>>::empty());
                }
                for j in 0..np
                    invariant
                        np == prods@.len(),
                        pv == rhs_views(prods@),
                        pv == prods_of(self.ents(), n),
                        fuel >= 1,
                        start < rules@.len(),
                        tok_sorted(base@),
                        toks(base@) == first_many(
                            self.ents(),
                            non_rec_prods(pv.take(j as int), n),
                            subfuel,
                        ),
                        subfuel == (fuel - 1) as nat,
                    decreases fuel, rules@.len() - start, np - j,
                {
                    let p = &prods[j];
                    let rec_here = p.len() > 0 && p[0] == Token::NonTerm(n);
                    proof {
                        assert(pv[j as int] == p@);
                        assert(rec_here == is_left_rec(pv[j as int], n));
                    }
                    if !rec_here {
                        let f = self.first_fuel(p, 0, fuel - 1);
                        proof {
                            assert(p@.skip(0) =~= p@);
                        }
                        ts_union(&mut base, &f);
                    }
                    proof {
                        assert(pv.take(j + 1).drop_last() =~= pv.take(j as int));
                        assert(pv.take(j + 1).last() == pv[j as int]);
                        let nr0 = non_rec_prods(pv.take(j as int), n);
                        let nr1 = non_rec_prods(pv.take(j + 1), n);
                        if rec_here {
                            assert(nr1 == nr0);
                        } else {
                            assert(nr1 == nr0.push(p@));
                            assert(nr1.drop_last() =~= nr0);
                            assert(first_many(self.ents(), nr1, subfuel) == first_many(
                                self.ents(),
                                nr1.drop_last(),
                                subfuel,
                            ).union(spec_first(self.ents(), p@, subfuel)));
                            assert(toks(base@) =~= first_many(self.ents(), nr1, subfuel));
                        }
                    }
                }
                proof {
                    assert(pv.take(np as int) =~= pv);
                }
                let ghost base0 = toks(base@);
                if ts_contains(&base, &Token::Empty) {
                    let mut has_rec = false;
                    for j in 0..np
                        invariant
                            np == prods@.len(),
                            pv == rhs_views(prods@),
                            has_rec <==> exists|k: int|
                                0 <= k < j && is_left_rec(#[trigger] pv[k], n),
                    {
                        let p = &prods[j];
                        if p.len() > 0 && p[0] == Token::NonTerm(n) {
                            proof {
                                assert(pv[j as int] == p@);
                                assert(is_left_rec(pv[j as int], n));
                            }
                            has_rec = true;
                        }
                    }
                    proof {
                        lemma_rec_tails_len(pv, n);
                    }
                    if has_rec {
                        ts_remove(&mut base, &Token::Empty);
                        proof {
                            assert(rec_tails(pv.take(0), n) =~= Seq::<Seq<Token>>::empty());
                            assert(toks(base@) =~= base0.remove(Token::Empty).union(
                                first_many(self.ents(), rec_tails(pv.take(0), n), subfuel),
                            ));
                        }
                        for j in 0..np
                            invariant
                                np == prods@.len(),
                                pv == rhs_views(prods@),
                                pv == prods_of(self.ents(), n),
                                fuel >= 1,
                                start < rules@.len(),
                                tok_sorted(base@),
                                toks(base@) == base0.remove(Token::Empty).union(
                                    first_many(self.ents(), rec_tails(pv.take(j as int), n), subfuel),
                                ),
                                subfuel == (fuel - 1) as nat,
                            decreases fuel, rules@.len() - start, np - j,
                        {
                            let p = &prods[j];
                            let rec_here = p.len() > 0 && p[0] == Token::NonTerm(n);
                            proof {
                                assert(pv[j as int] == p@);
                                assert(rec_here == is_left_rec(pv[j as int], n));
                            }
                            if rec_here {
                                let f = self.first_fuel(p, 1, fuel - 1);
                                proof {
                                    assert(p@.skip(1) =~= p@.drop_first());
                                }
                                ts_union(&mut base, &f);
                            }
                            proof {
                                assert(pv.take(j + 1).drop_last() =~= pv.take(j as int));
                                assert(pv.take(j + 1).last() == pv[j as int]);
                                let rt0 = rec_tails(pv.take(j as int), n);
                                let rt1 = rec_tails(pv.take(j + 1), n);
                                if rec_here {
                                    assert(rt1 == rt0.push(pv[j as int].drop_first()));
                                    assert(rt1.drop_last() =~= rt0);
                                    assert(first_many(self.ents(), rt1, subfuel) == first_many(
                                        self.ents(),
                                        rt1.drop_last(),
                                        subfuel,
                                    ).union(
                                        spec_first(self.ents(), pv[j as int].drop_first(), subfuel),
                                    ));
                                    assert(toks(base@) =~= base0.remove(Token::Empty).union(
                                        first_many(self.ents(), rt1, subfuel),
                                    ));
                                } else {
                                    assert(rt1 == rt0);
                                }
                            }
                        }
                        proof {
                            assert(pv.take(np as int) =~= pv);
                        }
                    }
                }
                let ghost wr = toks(base@);
                proof {
                    let spec_wr = if base0.contains(Token::Empty) && rec_tails(pv, n).len() > 0 {
                        base0.remove(Token::Empty).union(
                            first_many(self.ents(), rec_tails(pv, n), subfuel),
                        )
                    } else {
                        base0
                    };
                    assert(wr == spec_wr);
                }
                let is_empty = base.len() == 0;
                proof {
                    if !is_empty {
                        assert(base@.contains(base@[0]));
                        assert(wr.contains(base@[0]));
                        assert(wr != Set::<Token>::empty());
                    } else {
                        assert(wr =~= Set::<Token>::empty());
                    }
                }
                if is_empty || ts_contains(&base, &Token::Empty) {
                    ts_remove(&mut base, &Token::Empty);
                    let rest = self.first_fuel(rules, start + 1, fuel);
                    ts_union(&mut base, &rest);
                    proof {
                        assert(rules@.skip(start + 1) =~= suffix.drop_first());
                        assert(toks(base@) =~= wr.remove(Token::Empty).union(
                            spec_first(self.ents(), suffix.drop_first(), fuel as nat),
                        ));
                    }
                }
                base
            },
        }
    }

    /// One item per production of `rule`, with the dot at the start and
    /// an empty lookahead, in declaration order.
    pub fn initial(&self, rule: Id) -> (r: Vec<State>)
        ensures
            r@.len() == prods_of(self.ents(), rule).len(),
            forall|k: int|
                0 <= k < r@.len() ==> {
                    let it = (#[trigger] r@[k])@;
                    &&& it.rule == rule
                    &&& it.before == Seq::<Token>::empty()
                    &&& it.after == prods_of(self.ents(), rule)[k]
                    &&& it.lookahead == Set::<Token>::empty()
                },
            forall|k: int| 0 <= k < r@.len() ==> (#[trigger] r@[k]).wf(),
            forall|k: int| 0 <= k < r@.len() ==> item_from(self.ents(), (#[trigger] r@[k])@),
    {
        let prods = self.productions(rule);
        let ghost pv = rhs_views(prods@);
        let mut r: Vec<State> = Vec::new();
        let np = prods.len();
        for k in 0..np
            invariant
                np == prods@.len(),
                pv == rhs_views(prods@),
                pv == prods_of(self.ents(), rule),
                r@.len() == k,
                forall|q: int|
                    0 <= q < k ==> {
                        let it = (#[trigger] r@[q])@;
                        &&& it.rule == rule
                        &&& it.before == Seq::<Token>::empty()
                        &&& it.after == pv[q]
                        &&& it.lookahead == Set::<Token>::empty()
                    },
                forall|q: int| 0 <= q < k ==> (#[trigger] r@[q]).wf(),
        {
            let s = State::new(rule, ts_copy(&prods[k]));
            proof {
                assert(s@.after == pv[k as int]);
            }
            r.push(s);
        }
        proof {
            assert forall|k: int| 0 <= k < r@.len() implies item_from(
                self.ents(),
                (#[trigger] r@[k])@,
            ) by {
                lemma_prods_of_mem(self.ents(), rule, k);
                let j = choose|j: int|
                    0 <= j < self.ents().len() && (#[trigger] self.ents()[j]).rule_name == rule
                        && self.ents()[j].tokens == prods_of(self.ents(), rule)[k];
                assert(self.ents()[j].tokens =~= r@[k]@.before + r@[k]@.after);
            }
        }
        r
    }

    /// All right-hand sides declared for `rule`, in declaration order.
    pub fn productions(&self, rule: Id) -> (r: Vec<Vec<Token>>)
        ensures
            rhs_views(r@) == prods_of(self.ents(), rule),
    {
        let mut r: Vec<Vec<Token>> = Vec::new();
        let n = self.entries.len();
        for i in 0..n
            invariant
                n == self.entries@.len(),
                rhs_views(r@) =~= prods_of(self.ents().take(i as int), rule),
        {
            let ghost pre = self.ents().take(i as int);
            if self.entries[i].rule_name == rule {
                r.push(self.entries[i].tokens.clone());
            }
            proof {
                assert(self.ents().take(i + 1).drop_last() =~= pre);
                assert(self.ents().take(i + 1).last() == self.ents()[i as int]);
                assert(rhs_views(r@) =~= prods_of(self.ents().take(i + 1), rule));
            }
        }
        proof {
            assert(self.ents().take(n as int) =~= self.ents());
        }
        r
    }
}

/// Accumulates productions and interned names before finalisation.
#[derive(Debug, Clone)]
pub struct GrammarBuilder {
    string_pool: Pool,
    entries: Vec<GrammarEntry>,
}

impl GrammarBuilder {
    /// The accumulated productions, as mathematical values.
    pub closed spec fn ents(&self) -> Seq<EntryView> {
        Seq::new(self.entries@.len(), |i: int| self.entries@[i]@)
    }

    /// The pooled names so far.
    pub closed spec fn pool_v(&self) -> Seq<Seq<char>> {
        self.string_pool@
    }

    /// Same well-formedness as for a finished grammar.
    pub open spec fn wf(&self) -> bool {
        &&& self.pool_wf()
        &&& forall|i: int|
            0 <= i < self.ents().len() ==> (#[trigger] self.ents()[i]).rule_name.idx()
                < self.pool_v().len()
        &&& forall|i: int, j: int|
            0 <= i < self.ents().len() && 0 <= j < self.ents()[i].tokens.len() ==> token_num(
                #[trigger] self.ents()[i].tokens[j],
            ) < self.pool_v().len()
    }

    pub closed spec fn pool_wf(&self) -> bool {
        self.string_pool.wf()
    }

    /// An empty builder.
    pub fn new() -> (b: GrammarBuilder)
        ensures
            b.ents() =~= Seq::<EntryView>::empty(),
            b.wf(),
    {
        GrammarBuilder { string_pool: Pool::new(), entries: Vec::new() }
    }

    /// Starts building one right-hand side.
    pub fn prod_builder(&mut self) -> (p: ProductionBuilder)
        ensures
            *final(self) == *old(self),
            p@ =~= Seq::<(bool, Seq<char>)>::empty(),
    {
        ProductionBuilder { names: Vec::new() }
    }

    /// Appends the production `rule -> prod { code }`, interning all names.
    pub fn production(self, rule: String, prod: ProductionBuilt, code: String) -> (b:
        GrammarBuilder)
        requires
            self.wf(),
        ensures
            b.wf(),
            b.pool_v().len() >= self.pool_v().len(),
            forall|k: int| 0 <= k < self.pool_v().len() ==> b.pool_v()[k] == self.pool_v()[k],
            b.ents().len() == self.ents().len() + 1,
            forall|i: int| 0 <= i < self.ents().len() ==> b.ents()[i] == self.ents()[i],
            b.ents().last().code == code@,
            b.pool_v()[b.ents().last().rule_name.idx()] == rule@,
            b.ents().last().tokens.len() == prod@.len(),
            forall|j: int|
                0 <= j < prod@.len() ==> {
                    let t = #[trigger] b.ents().last().tokens[j];
                    &&& (prod@[j].0 <==> t is Term)
                    &&& (!prod@[j].0 <==> t is NonTerm)
                    &&& b.pool_v()[token_num(t)] == prod@[j].1
                },
    {
        let mut this = self;
        let mut tokens: Vec<Token> = Vec::new();
        let n = prod.names.len();
        for j in 0..n
            invariant
                n == prod.names@.len(),
                this.pool_wf(),
                this.ents() =~= self.ents(),
                this.pool_v().len() >= self.pool_v().len(),
                forall|k: int| 0 <= k < self.pool_v().len() ==> this.pool_v()[k] == self.pool_v()[k],
                tokens@.len() == j,
                forall|k: int|
                    0 <= k < j ==> {
                        let t = #[trigger] tokens@[k];
                        &&& (prod.names@[k].0 <==> t is Term)
                        &&& (!prod.names@[k].0 <==> t is NonTerm)
                        &&& token_num(t) < this.pool_v().len()
                        &&& this.pool_v()[token_num(t)] == prod.names@[k].1@
                    },
        {
            let is_term = prod.names[j].0;
            let name = prod.names[j].1.clone();
            let id = this.string_pool.add(name);
            if is_term {
                tokens.push(Token::Term(id));
            } else {
                tokens.push(Token::NonTerm(id));
            }
        }
        let rule_name = this.string_pool.add(rule);
        this.entries.push(GrammarEntry { rule_name, tokens, code });
        proof {
            assert(this.ents().drop_last() =~= self.ents());
            assert(forall|i: int|
                0 <= i < self.ents().len() ==> this.ents()[i] == this.ents().drop_last()[i]);
        }
        this
    }

    /// Appends the synthetic start production `S0 -> entry_point, Eof` and
    /// finishes the grammar.
    pub fn finish(self, entry_point: String) -> (g: Grammar)
        requires
            self.wf(),
        ensures
            g.wf(),
            g.pool_v().len() >= self.pool_v().len(),
            forall|k: int| 0 <= k < self.pool_v().len() ==> g.pool_v()[k] == self.pool_v()[k],
            g.ents().len() == self.ents().len() + 1,
            forall|i: int| 0 <= i < self.ents().len() ==> g.ents()[i] == self.ents()[i],
            g.pool_v()[g.ents().last().rule_name.idx()] == "S0"@,
            g.ents().last().tokens.len() == 2,
            g.ents().last().tokens[0] is NonTerm,
            g.pool_v()[token_num(g.ents().last().tokens[0])] == entry_point@,
            g.ents().last().tokens[1] == Token::Eof,
            g.ents().last().code == Seq::<char>::empty(),
    {
        let mut this = self;
        let super_rule = this.string_pool.add(String::from_str("S0"));
        let entry_id = this.string_pool.add(entry_point);
        let tokens = vec![Token::NonTerm(entry_id), Token::Eof];
        let code = String::new();
        this.entries.push(GrammarEntry { rule_name: super_rule, tokens, code });
        let g = Grammar { pool: this.string_pool, entries: this.entries };
        proof {
            assert(g.ents().drop_last() =~= self.ents());
            assert(forall|i: int|
                0 <= i < self.ents().len() ==> g.ents()[i] == g.ents().drop_last()[i]);
        }
        g
    }
}

/// Accumulates the symbols of one right-hand side before it is attached
/// to a rule; names are interned when the production is attached.
pub struct ProductionBuilder {
    names: Vec<(bool, String)>,
}

impl View for ProductionBuilder {
    type V = Seq<(bool, Seq<char>)>;

    closed spec fn view(&self) -> Seq<(bool, Seq<char>)> {
        Seq::new(self.names@.len(), |i: int| (self.names@[i].0, self.names@[i].1@))
    }
}

/// A finished right-hand side, ready to attach to a rule.
pub struct ProductionBuilt {
    names: Vec<(bool, String)>,
}

impl View for ProductionBuilt {
    type V = Seq<(bool, Seq<char>)>;

    closed spec fn view(&self) -> Seq<(bool, Seq<char>)> {
        Seq::new(self.names@.len(), |i: int| (self.names@[i].0, self.names@[i].1@))
    }
}

impl ProductionBuilder {
    /// Appends a terminal symbol.
    pub fn term(self, term: String) -> (p: ProductionBuilder)
        ensures
            p@ =~= self@.push((true, term@)),
    {
        let mut this = self;
        this.names.push((true, term));
        proof {
            assert(this@ =~= self@.push((true, term@)));
        }
        this
    }

    /// Appends a non-terminal symbol.
    pub fn non_term(self, non_term: String) -> (p: ProductionBuilder)
        ensures
            p@ =~= self@.push((false, non_term@)),
    {
        let mut this = self;
        this.names.push((false, non_term));
        proof {
            assert(this@ =~= self@.push((false, non_term@)));
        }
        this
    }

    /// Finishes the right-hand side.
    pub fn finish(self) -> (p: ProductionBuilt)
        ensures
            p@ == self@,
    {
        ProductionBuilt { names: self.names }
    }
}

} // verus!
