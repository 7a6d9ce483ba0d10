//! An append-only pool that interns rule and terminal names, giving each
//! distinct string a small stable identifier.

use vstd::prelude::*;

verus! {

/// An interned name: an index into the pool that created it.
#[derive(Clone, Copy, Debug, Hash, PartialEq, Eq, Structural)]
pub struct Id(pub usize);

impl Id {
    /// The index this identifier stands for.
    pub open spec fn idx(self) -> int {
        self.0 as int
    }
}

/// A growing, append-only vector of unique strings.
#[derive(Debug, Clone)]
pub struct Pool {
    inner: Vec<String>,
}

impl View for Pool {
    type V = Seq<Seq<char>>;

    closed spec fn view(&self) -> Seq<Seq<char>> {
        Seq::new(self.inner@.len(), |i: int| self.inner@[i]@)
    }
}

impl Pool {
    /// All pooled strings are distinct.
    pub open spec fn wf(&self) -> bool {
        forall|i: int, j: int| 0 <= i < j < self@.len() ==> self@[i] != self@[j]
    }

    /// An identifier is valid for this pool when it indexes a pooled string.
    pub open spec fn valid(&self, id: Id) -> bool {
        0 <= id.idx() < self@.len()
    }

    /// Constructs a new, empty pool.
    pub fn new() -> (p: Pool)
        ensures
            p@ =~= Seq::<Seq<char>>::empty(),
            p.wf(),
    {
        Pool { inner: Vec::new() }
    }

    /// The number of interned strings.
    pub fn len(&self) -> (n: usize)
        ensures
            n == self@.len(),
    {
        self.inner.len()
    }

    /// Interns `string`: returns the existing identifier when a value-equal
    /// string is already pooled, otherwise appends it under a fresh one.
    pub fn add(&mut self, string: String) -> (id: Id)
        requires
            old(self).wf(),
        ensures
            final(self).wf(),
            final(self).valid(id),
            final(self)@[id.idx()] == string@,
            // the pool keeps everything it had, in place
            final(self)@.len() >= old(self)@.len(),
            forall|i: int| 0 <= i < old(self)@.len() ==> final(self)@[i] == old(self)@[i],
            // an already-pooled string is found, a new one is appended
            (forall|i: int| 0 <= i < old(self)@.len() ==> old(self)@[i] != string@) <==> (
            final(self)@.len() == old(self)@.len() + 1 && id.idx() == old(self)@.len()),
            !(forall|i: int| 0 <= i < old(self)@.len() ==> old(self)@[i] != string@)
                ==> final(self)@ == old(self)@,
    {
        let n = self.inner.len();
        for i in 0..n
            invariant
                self@ == old(self)@,
                self.wf(),
                n == self@.len(),
                forall|k: int| 0 <= k < i ==> self@[k] != string@,
        {
            if self.inner[i] == string {
                proof {
                    assert(old(self)@[i as int] == string@);
                }
                return Id(i);
            }
        }
        self.inner.push(string);
        proof {
            assert(self@ =~= old(self)@.push(string@));
        }
        Id(n)
    }

    /// The identifier of an already interned string, if any.
    pub fn reverse_lookup(&self, name: &str) -> (r: Option<Id>)
        ensures
            match r {
                Some(id) => self.valid(id) && self@[id.idx()] == name@,
                None => forall|i: int| 0 <= i < self@.len() ==> self@[i] != name@,
            },
    {
        let n = self.inner.len();
        for i in 0..n
            invariant
                n == self@.len(),
                forall|k: int| 0 <= k < i ==> self@[k] != name@,
        {
            if crate::text::str_eq(self.inner[i].as_str(), name) {
                return Some(Id(i));
            }
        }
        None
    }

    /// The string interned under `id`.
    pub fn get(&self, id: Id) -> (s: &str)
        requires
            self.valid(id),
        ensures
            s@ == self@[id.idx()],
    {
        self.inner[id.0].as_str()
    }
}

} // verus!
