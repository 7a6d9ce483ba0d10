//! Token sets kept in canonical form: a strictly ascending vector in the
//! total token order. Canonical form makes set equality structural and
//! iteration order deterministic.

use vstd::prelude::*;

use crate::grammar::{lemma_token_order, token_before, token_lt, Token};

verus! {

/// The set of tokens held by a sequence.
pub open spec fn toks(s: Seq<Token>) -> Set<Token> {
    Set::new(|t: Token| s.contains(t))
}

/// Strictly ascending in the token order: the canonical form of a token set.
pub open spec fn tok_sorted(s: Seq<Token>) -> bool {
    forall|i: int, j: int| 0 <= i < j < s.len() ==> token_lt(s[i], s[j])
}

/// A strictly sorted sequence holds no element twice.
pub proof fn lemma_sorted_distinct(s: Seq<Token>, i: int, j: int)
    requires
        tok_sorted(s),
        0 <= i < j < s.len(),
    ensures
        s[i] != s[j],
{
    lemma_token_order(s[i], s[j]);
}

/// Two canonical sequences holding the same set are the same sequence.
pub proof fn lemma_canonical_eq(a: Seq<Token>, b: Seq<Token>)
    requires
        tok_sorted(a),
        tok_sorted(b),
        toks(a) == toks(b),
    ensures
        a == b,
    decreases a.len(),
{
    if a.len() == 0 {
        if b.len() > 0 {
            assert(toks(b).contains(b[0]));
            assert(toks(a).contains(b[0]));
        }
        assert(a =~= b);
    } else if b.len() == 0 {
        assert(toks(a).contains(a[0]));
        assert(toks(b).contains(a[0]));
    } else {
        // the heads are both the least element of the common set
        assert(toks(a).contains(a[0]));
        assert(toks(b).contains(b[0]));
        assert(b.contains(a[0]));
        assert(a.contains(b[0]));
        let j = choose|j: int| 0 <= j < b.len() && b[j] == a[0];
        let k = choose|k: int| 0 <= k < a.len() && a[k] == b[0];
        if a[0] != b[0] {
            assert(j > 0 && k > 0);
            assert(token_lt(b[0], b[j]));
            assert(token_lt(a[0], a[k]));
            lemma_token_order(a[0], b[0]);
        }
        let a1 = a.drop_first();
        let b1 = b.drop_first();
        assert forall|t: Token| toks(a1).contains(t) implies toks(b1).contains(t) by {
            let i = choose|i: int| 0 <= i < a1.len() && a1[i] == t;
            assert(a[i + 1] == t);
            lemma_sorted_distinct(a, 0, i + 1);
            assert(toks(a).contains(t));
            assert(b.contains(t));
            let m = choose|m: int| 0 <= m < b.len() && b[m] == t;
            assert(m > 0);
            assert(b1[m - 1] == t);
        }
        assert forall|t: Token| toks(b1).contains(t) implies toks(a1).contains(t) by {
            let i = choose|i: int| 0 <= i < b1.len() && b1[i] == t;
            assert(b[i + 1] == t);
            lemma_sorted_distinct(b, 0, i + 1);
            assert(toks(b).contains(t));
            assert(a.contains(t));
            let m = choose|m: int| 0 <= m < a.len() && a[m] == t;
            assert(m > 0);
            assert(a1[m - 1] == t);
        }
        assert(toks(a1) =~= toks(b1));
        lemma_canonical_eq(a1, b1);
        assert forall|i: int| 0 <= i < a.len() implies a[i] == b[i] by {
            if i > 0 {
                assert(a1[i - 1] == b1[i - 1]);
            }
        }
        assert(a =~= b);
    }
}

/// Decides membership.
pub fn ts_contains(v: &Vec<Token>, t: &Token) -> (r: bool)
    ensures
        r == toks(v@).contains(*t),
{
    let n = v.len();
    for i in 0..n
        invariant
            n == v@.len(),
            forall|k: int| 0 <= k < i ==> v@[k] != *t,
    {
        if v[i] == *t {
            proof {
                assert(v@.contains(*t));
            }
            return true;
        }
    }
    false
}

/// The index of the first element not below `t`.
fn ts_lower_bound(v: &Vec<Token>, t: &Token) -> (i: usize)
    ensures
        i <= v@.len(),
        forall|k: int| 0 <= k < i ==> token_lt(v@[k], *t),
        i < v@.len() ==> !token_lt(v@[i as int], *t),
{
    let n = v.len();
    for i in 0..n
        invariant
            n == v@.len(),
            forall|k: int| 0 <= k < i ==> token_lt(v@[k], *t),
    {
        if !token_before(&v[i], t) {
            return i;
        }
    }
    n
}

/// Inserts a token, keeping canonical form.
#[verifier::rlimit(50)]
pub fn ts_insert(v: &mut Vec<Token>, t: Token)
    requires
        tok_sorted(old(v)@),
    ensures
        tok_sorted(final(v)@),
        toks(final(v)@) == toks(old(v)@).insert(t),
{
    let n = v.len();
    let i = ts_lower_bound(v, &t);
    if i < n && v[i] == t {
        proof {
            assert(v@.contains(t));
            assert(toks(v@) =~= toks(old(v)@).insert(t));
        }
        return ;
    }
    let ghost pre = v@;
    v.insert(i, t);
    proof {
        pre.insert_ensures(i as int, t);
        if i < pre.len() {
            lemma_token_order(pre[i as int], t);
        }
        assert forall|x: int, y: int| 0 <= x < y < v@.len() implies token_lt(v@[x], v@[y]) by {
            if y < i {
                assert(v@[x] == pre[x] && v@[y] == pre[y]);
            } else if x > i {
                assert(v@[x] == pre[x - 1] && v@[y] == pre[y - 1]);
            } else if x < i && y == i {
                assert(v@[x] == pre[x] && v@[y] == t);
            } else if x == i && y > i {
                assert(v@[x] == t && v@[y] == pre[y - 1]);
                if i + 1 < y {
                    assert(token_lt(pre[i as int], pre[y - 1]));
                }
            } else if x < i && y > i {
                assert(v@[x] == pre[x] && v@[y] == pre[y - 1]);
                assert(token_lt(pre[x], t));
                if i < y - 1 {
                    assert(token_lt(pre[i as int], pre[y - 1]));
                }
            }
        }
        assert forall|x: Token| toks(v@).contains(x) implies toks(pre).insert(t).contains(x) by {
            let k = choose|k: int| 0 <= k < v@.len() && v@[k] == x;
            if k < i {
                assert(pre[k] == x);
                assert(pre.contains(x));
            } else if k == i {
                assert(x == t);
            } else {
                assert(pre[k - 1] == x);
                assert(pre.contains(x));
            }
        }
        assert forall|x: Token| toks(pre).insert(t).contains(x) implies toks(v@).contains(x) by {
            if x == t {
                assert(v@[i as int] == t);
                assert(v@.contains(x));
            } else {
                let k = choose|k: int| 0 <= k < pre.len() && pre[k] == x;
                if k < i {
                    assert(v@[k] == x);
                } else {
                    assert(v@[k + 1] == x);
                }
                assert(v@.contains(x));
            }
        }
        assert(toks(v@) =~= toks(pre).insert(t));
    }
}

/// Removes a token, keeping canonical form.
pub fn ts_remove(v: &mut Vec<Token>, t: &Token)
    requires
        tok_sorted(old(v)@),
    ensures
        tok_sorted(final(v)@),
        toks(final(v)@) == toks(old(v)@).remove(*t),
{
    let n = v.len();
    for i in 0..n
        invariant
            v@ == old(v)@,
            tok_sorted(v@),
            n == v@.len(),
            forall|k: int| 0 <= k < i ==> v@[k] != *t,
    {
        if v[i] == *t {
            let ghost pre = v@;
            v.remove(i);
            proof {
                pre.remove_ensures(i as int);
                assert forall|x: int, y: int| 0 <= x < y < v@.len() implies token_lt(
                    v@[x],
                    v@[y],
                ) by {
                    let px: int = if x < i { x } else { x + 1 };
                    let py: int = if y < i { y } else { y + 1 };
                    assert(v@[x] == pre[px] && v@[y] == pre[py]);
                }
                assert forall|x: Token| toks(v@).contains(x) implies toks(pre).remove(
                    *t,
                ).contains(x) by {
                    let k = choose|k: int| 0 <= k < v@.len() && v@[k] == x;
                    let pk: int = if k < i { k } else { k + 1 };
                    assert(pre[pk] == x);
                    assert(pre.contains(x));
                    if x == *t {
                        lemma_sorted_distinct(pre, if pk < i { pk } else { i as int }, if pk < i {
                            i as int
                        } else {
                            pk
                        });
                    }
                }
                assert forall|x: Token| toks(pre).remove(*t).contains(x) implies toks(
                    v@,
                ).contains(x) by {
                    let k = choose|k: int| 0 <= k < pre.len() && pre[k] == x;
                    if k < i {
                        assert(v@[k] == x);
                    } else {
                        assert(k != i);
                        assert(v@[k - 1] == x);
                    }
                    assert(v@.contains(x));
                }
                assert(toks(v@) =~= toks(pre).remove(*t));
            }
            return ;
        }
    }
    proof {
        assert(!toks(v@).contains(*t));
        assert(toks(v@) =~= toks(old(v)@).remove(*t));
    }
}

/// Copies a token vector.
pub fn ts_copy(v: &Vec<Token>) -> (r: Vec<Token>)
    ensures
        r@ == v@,
{
    let mut r: Vec<Token> = Vec::new();
    let n = v.len();
    for i in 0..n
        invariant
            n == v@.len(),
            r@ =~= v@.take(i as int),
    {
        r.push(v[i]);
        proof {
            assert(r@ =~= v@.take(i + 1));
        }
    }
    proof {
        assert(v@.take(n as int) =~= v@);
    }
    r
}

/// Unions `b` into `a`, keeping canonical form.
pub fn ts_union(a: &mut Vec<Token>, b: &Vec<Token>)
    requires
        tok_sorted(old(a)@),
    ensures
        tok_sorted(final(a)@),
        toks(final(a)@) == toks(old(a)@).union(toks(b@)),
{
    let n = b.len();
    for i in 0..n
        invariant
            n == b@.len(),
            tok_sorted(a@),
            toks(a@) =~= toks(old(a)@).union(toks(b@.take(i as int))),
    {
        ts_insert(a, b[i]);
        proof {
            assert(b@.take(i + 1).drop_last() =~= b@.take(i as int));
            assert(b@.take(i + 1).last() == b@[i as int]);
            assert forall|x: Token| toks(b@.take(i + 1)).contains(x) implies toks(
                b@.take(i as int),
            ).insert(b@[i as int]).contains(x) by {
                let k = choose|k: int| 0 <= k < i + 1 && #[trigger] b@.take(i + 1)[k] == x;
                if k < i {
                    assert(b@.take(i as int)[k] == x);
                    assert(b@.take(i as int).contains(x));
                }
            }
            assert forall|x: Token| toks(b@.take(i as int)).insert(b@[i as int]).contains(
                x,
            ) implies toks(b@.take(i + 1)).contains(x) by {
                if x == b@[i as int] {
                    assert(b@.take(i + 1)[i as int] == x);
                    assert(b@.take(i + 1).contains(x));
                } else {
                    let k = choose|k: int| 0 <= k < i && b@.take(i as int)[k] == x;
                    assert(b@.take(i + 1)[k] == x);
                    assert(b@.take(i + 1).contains(x));
                }
            }
            assert(toks(b@.take(i + 1)) =~= toks(b@.take(i as int)).insert(b@[i as int]));
            assert(toks(a@) =~= toks(old(a)@).union(toks(b@.take(i + 1))));
        }
    }
    proof {
        assert(b@.take(n as int) =~= b@);
    }
}

/// Decides equality of token vectors as sequences.
pub fn ts_seq_eq(a: &Vec<Token>, b: &Vec<Token>) -> (r: bool)
    ensures
        r == (a@ == b@),
{
    if a.len() != b.len() {
        return false;
    }
    let n = a.len();
    for i in 0..n
        invariant
            n == a@.len() && n == b@.len(),
            forall|k: int| 0 <= k < i ==> a@[k] == b@[k],
    {
        if a[i] != b[i] {
            return false;
        }
    }
    proof {
        assert(a@ =~= b@);
    }
    true
}

} // verus!
