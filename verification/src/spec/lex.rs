//! The lexer for the grammar specification format: line comments begin
//! with `#`; the tokens are `=`, `:`, `|`, identifiers, and
//! brace-delimited literals with balanced braces.

use vstd::prelude::*;

verus! {

/// One token of the specification format.
#[derive(Debug, Clone, PartialEq, Eq)]
pub enum Token {
    Equals,
    Colon,
    Pipe,
    Ident(String),
    Literal(String),
}

/// A token as a mathematical value.
#[verifier::ext_equal]
pub enum TokView {
    Equals,
    Colon,
    Pipe,
    Ident(Seq<char>),
    Literal(Seq<char>),
}

impl View for Token {
    type V = TokView;

    open spec fn view(&self) -> TokView {
        match self {
            Token::Equals => TokView::Equals,
            Token::Colon => TokView::Colon,
            Token::Pipe => TokView::Pipe,
            Token::Ident(s) => TokView::Ident(s@),
            Token::Literal(s) => TokView::Literal(s@),
        }
    }
}

/// The token values of a token vector.
pub open spec fn tok_views(s: Seq<Token>) -> Seq<TokView> {
    Seq::new(s.len(), |i: int| s[i]@)
}

/// Whether `c` can start an identifier.
pub open spec fn is_ident_start(c: char) -> bool {
    ('a' <= c && c <= 'z') || ('A' <= c && c <= 'Z') || c == '_'
}

/// Whether `c` can continue an identifier.
pub open spec fn is_ident_more(c: char) -> bool {
    is_ident_start(c) || ('0' <= c && c <= '9')
}

fn is_ident_start_x(c: char) -> (r: bool)
    ensures
        r == is_ident_start(c),
{
    ('a' <= c && c <= 'z') || ('A' <= c && c <= 'Z') || c == '_'
}

fn is_ident_more_x(c: char) -> (r: bool)
    ensures
        r == is_ident_more(c),
{
    is_ident_start_x(c) || ('0' <= c && c <= '9')
}

/// The scan for the close brace balancing an already-open one: from
/// position `i` at nesting depth `depth`, the position just after the
/// balancing close brace, or nothing when the braces never balance
/// (the nesting counter is capped at the machine word, as in the scan).
pub open spec fn lit_end(src: Seq<char>, i: int, depth: int) -> Option<int>
    decreases src.len() - i,
{
    if i < 0 || i >= src.len() {
        None
    } else if src[i] == '{' {
        if depth == usize::MAX {
            None
        } else {
            lit_end(src, i + 1, depth + 1)
        }
    } else if src[i] == '}' {
        if depth == 1 {
            Some(i + 1)
        } else {
            lit_end(src, i + 1, depth - 1)
        }
    } else {
        lit_end(src, i + 1, depth)
    }
}

/// Scans a brace-delimited literal that opened just before `start`:
/// finds the matching close brace, counting nested balanced braces.
/// Returns the literal's contents — everything up to the balancing
/// close brace — and the position after that brace, or nothing when
/// the braces never balance.
pub fn parse_literal(src: &Vec<char>, start: usize) -> (r: Option<(String, usize)>)
    requires
        start <= src@.len(),
    ensures
        match r {
            Some(p) => {
                &&& lit_end(src@, start as int, 1) == Some(p.1 as int)
                &&& start < p.1 <= src@.len()
                &&& src@[p.1 - 1] == '}'
                &&& p.0@ == src@.subrange(start as int, p.1 - 1)
            },
            None => lit_end(src@, start as int, 1) is None,
        },
{
    let n = src.len();
    let mut depth: usize = 1;
    let mut i = start;
    let mut content = String::new();
    while i < n
        invariant
            n == src@.len(),
            start <= i <= n,
            depth >= 1,
            lit_end(src@, start as int, 1) == lit_end(src@, i as int, depth as int),
            content@ == src@.subrange(start as int, i as int),
        decreases n - i,
    {
        let c = src[i];
        if c == '{' {
            if depth == usize::MAX {
                return None;
            }
            depth += 1;
        } else if c == '}' {
            depth -= 1;
            if depth == 0 {
                return Some((content, i + 1));
            }
        }
        push_char(&mut content, c);
        i += 1;
        proof {
            assert(content@ =~= src@.subrange(start as int, i as int));
        }
    }
    None
}

/// Relies on `String::push`: appends exactly the one character.
#[verifier::external_body]
pub fn push_char(out: &mut String, c: char)
    ensures
        final(out)@ == old(out)@.push(c),
{
    out.push(c);
}

/// The position of the first newline at or after `j`, if any.
pub open spec fn nl_at(src: Seq<char>, j: int) -> Option<int>
    decreases src.len() - j,
{
    if j < 0 || j >= src.len() {
        None
    } else if src[j] == '\n' {
        Some(j)
    } else {
        nl_at(src, j + 1)
    }
}

/// A found newline lies between the start of the search and the end.
pub proof fn lemma_nl_at_bound(src: Seq<char>, j: int)
    requires
        nl_at(src, j) is Some,
    ensures
        j <= nl_at(src, j)->Some_0 < src.len(),
    decreases src.len() - j,
{
    if !(j < 0 || j >= src.len()) && src[j] != '\n' {
        lemma_nl_at_bound(src, j + 1);
    }
}

/// The position just after an identifier's last character, scanning
/// from `j`.
pub open spec fn ident_end(src: Seq<char>, j: int) -> int
    decreases src.len() - j,
{
    if j < 0 || j >= src.len() || !is_ident_more(src[j]) {
        j
    } else {
        ident_end(src, j + 1)
    }
}

/// An identifier scan moves forward and stays inside the source.
pub proof fn lemma_ident_end_bound(src: Seq<char>, j: int)
    requires
        0 <= j <= src.len(),
    ensures
        j <= ident_end(src, j) <= src.len(),
    decreases src.len() - j,
{
    if !(j < 0 || j >= src.len() || !is_ident_more(src[j])) {
        lemma_ident_end_bound(src, j + 1);
    }
}

/// A balanced literal's end lies after its start and inside the source.
pub proof fn lemma_lit_end_bound(src: Seq<char>, i: int, depth: int)
    requires
        lit_end(src, i, depth) is Some,
    ensures
        i < lit_end(src, i, depth)->Some_0 <= src.len(),
    decreases src.len() - i,
{
    if !(i < 0 || i >= src.len()) {
        if src[i] == '{' {
            if depth != usize::MAX {
                lemma_lit_end_bound(src, i + 1, depth + 1);
            }
        } else if src[i] == '}' {
            if depth != 1 {
                lemma_lit_end_bound(src, i + 1, depth - 1);
            }
        } else {
            lemma_lit_end_bound(src, i + 1, depth);
        }
    }
}

/// The token stream of the source from position `i`, or the position of
/// the first character no rule accepts.
pub open spec fn lex_spec(src: Seq<char>, i: int) -> Result<Seq<TokView>, int>
    decreases src.len() - i,
    when 0 <= i
    via lex_spec_decreases
{
    if i >= src.len() {
        Ok(Seq::empty())
    } else {
        let c = src[i];
        if c == ' ' || c == '\t' || c == '\n' || c == '\u{c}' {
            lex_spec(src, i + 1)
        } else if c == '#' {
            match nl_at(src, i + 1) {
                Some(j) => lex_spec(src, j + 1),
                None => Err(i),
            }
        } else if c == '=' {
            lex_cons(TokView::Equals, lex_spec(src, i + 1))
        } else if c == ':' {
            lex_cons(TokView::Colon, lex_spec(src, i + 1))
        } else if c == '|' {
            lex_cons(TokView::Pipe, lex_spec(src, i + 1))
        } else if c == '{' {
            match lit_end(src, i + 1, 1) {
                Some(p) => lex_cons(TokView::Literal(src.subrange(i + 1, p - 1)), lex_spec(src, p)),
                None => Err(i),
            }
        } else if is_ident_start(c) {
            let j = ident_end(src, i + 1);
            if j == i + 1 {
                Err(i)
            } else {
                lex_cons(TokView::Ident(src.subrange(i, j)), lex_spec(src, j))
            }
        } else {
            Err(i)
        }
    }
}

/// Prepends one token value to a lexing result.
pub open spec fn lex_cons(t: TokView, rest: Result<Seq<TokView>, int>) -> Result<
    Seq<TokView>,
    int,
> {
    match rest {
        Ok(ts) => Ok(seq![t] + ts),
        Err(p) => Err(p),
    }
}

#[via_fn]
proof fn lex_spec_decreases(src: Seq<char>, i: int) {
    if 0 <= i < src.len() {
        let c = src[i];
        if c == '#' {
            if nl_at(src, i + 1) is Some {
                lemma_nl_at_bound(src, i + 1);
            }
        } else if c == '{' {
            if lit_end(src, i + 1, 1) is Some {
                lemma_lit_end_bound(src, i + 1, 1);
            }
        } else if is_ident_start(c) {
            lemma_ident_end_bound(src, i + 1);
        }
    }
}

/// The position of the first newline at or after `from`, if any.
fn find_newline(src: &Vec<char>, from: usize) -> (r: Option<usize>)
    requires
        from <= src@.len(),
    ensures
        match r {
            Some(j) => from <= j < src@.len() && nl_at(src@, from as int) == Some(j as int),
            None => nl_at(src@, from as int) is None,
        },
{
    let n = src.len();
    let mut j = from;
    while j < n
        invariant
            n == src@.len(),
            from <= j <= n,
            nl_at(src@, from as int) == nl_at(src@, j as int),
        decreases n - j,
    {
        if src[j] == '\n' {
            return Some(j);
        }
        j += 1;
    }
    None
}

/// The first position at or after `from` that cannot continue an
/// identifier.
fn ident_scan(src: &Vec<char>, from: usize) -> (j: usize)
    requires
        from <= src@.len(),
    ensures
        from <= j <= src@.len(),
        j == ident_end(src@, from as int),
{
    let n = src.len();
    let mut j = from;
    while j < n
        invariant
            n == src@.len(),
            from <= j <= n,
            ident_end(src@, from as int) == ident_end(src@, j as int),
        decreases n - j,
    {
        if !is_ident_more_x(src[j]) {
            return j;
        }
        j += 1;
    }
    j
}

/// Pushing the next produced token keeps the running decomposition of
/// the whole token stream.
proof fn lemma_cons_assoc(a: Seq<TokView>, t: TokView, r: Result<Seq<TokView>, int>)
    ensures
        (match lex_cons(t, r) {
            Ok(rest) => Ok::<Seq<TokView>, int>(a + rest),
            Err(p) => Err(p),
        }) == (match r {
            Ok(rest) => Ok::<Seq<TokView>, int>((a + seq![t]) + rest),
            Err(p) => Err(p),
        }),
{
    match r {
        Ok(rest) => {
            assert(a + (seq![t] + rest) =~= (a + seq![t]) + rest);
        },
        Err(_) => {},
    }
}

/// Splits the source into tokens, exactly as `lex_spec` reads it.
/// Whitespace and `#`-to-end-of-line comments are skipped; an
/// identifier is a letter or underscore followed by at least one more
/// identifier character; `{` opens a balanced-brace literal. On a
/// character no rule accepts (including an unterminated comment or
/// literal and a one-character identifier), the position of the
/// offending character is returned.
pub fn tokenize(src: &Vec<char>) -> (r: Result<Vec<Token>, usize>)
    ensures
        match r {
            Ok(toks) => lex_spec(src@, 0) == Ok::<Seq<TokView>, int>(tok_views(toks@)),
            Err(p) => p < src@.len() && lex_spec(src@, 0) == Err::<Seq<TokView>, int>(p as int),
        },
{
    let n = src.len();
    let mut toks: Vec<Token> = Vec::new();
    let mut i: usize = 0;
    while i < n
        invariant
            n == src@.len(),
            i <= n,
            lex_spec(src@, 0) == (match lex_spec(src@, i as int) {
                Ok(rest) => Ok::<Seq<TokView>, int>(tok_views(toks@) + rest),
                Err(p) => Err::<Seq<TokView>, int>(p),
            }),
        decreases n - i,
    {
        let ghost pre_toks = tok_views(toks@);
        let c = src[i];
        if c == ' ' || c == '\t' || c == '\n' || c == '\u{c}' {
            i += 1;
        } else if c == '#' {
            // a comment runs to its newline, which must be present
            match find_newline(src, i + 1) {
                Some(j) => {
                    i = j + 1;
                },
                None => {
                    return Err(i);
                },
            }
        } else if c == '=' {
            toks.push(Token::Equals);
            proof {
                assert(tok_views(toks@) =~= pre_toks + seq![TokView::Equals]);
                lemma_cons_assoc(pre_toks, TokView::Equals, lex_spec(src@, i + 1));
            }
            i += 1;
        } else if c == ':' {
            toks.push(Token::Colon);
            proof {
                assert(tok_views(toks@) =~= pre_toks + seq![TokView::Colon]);
                lemma_cons_assoc(pre_toks, TokView::Colon, lex_spec(src@, i + 1));
            }
            i += 1;
        } else if c == '|' {
            toks.push(Token::Pipe);
            proof {
                assert(tok_views(toks@) =~= pre_toks + seq![TokView::Pipe]);
                lemma_cons_assoc(pre_toks, TokView::Pipe, lex_spec(src@, i + 1));
            }
            i += 1;
        } else if c == '{' {
            match parse_literal(src, i + 1) {
                Some((content, next)) => {
                    let ghost tv = TokView::Literal(content@);
                    toks.push(Token::Literal(content));
                    proof {
                        assert(tok_views(toks@) =~= pre_toks + seq![tv]);
                        lemma_cons_assoc(pre_toks, tv, lex_spec(src@, next as int));
                    }
                    i = next;
                },
                None => {
                    return Err(i);
                },
            }
        } else if is_ident_start_x(c) {
            let j = ident_scan(src, i + 1);
            let mut name = String::new();
            let mut k = i;
            proof {
                assert(name@ =~= src@.subrange(i as int, i as int));
            }
            while k < j
                invariant
                    n == src@.len(),
                    i <= k <= j <= n,
                    name@ == src@.subrange(i as int, k as int),
                decreases j - k,
            {
                push_char(&mut name, src[k]);
                k += 1;
                proof {
                    assert(name@ =~= src@.subrange(i as int, k as int));
                }
            }
            if j == i + 1 {
                // the format asks for at least two characters
                return Err(i);
            }
            let ghost tv = TokView::Ident(name@);
            toks.push(Token::Ident(name));
            proof {
                assert(tok_views(toks@) =~= pre_toks + seq![tv]);
                lemma_cons_assoc(pre_toks, tv, lex_spec(src@, j as int));
            }
            i = j;
        } else {
            return Err(i);
        }
    }
    proof {
        assert(tok_views(toks@) + Seq::<TokView>::empty() =~= tok_views(toks@));
    }
    Ok(toks)
}

} // verus!
