//! The set of hostnames that resolved, kept without duplicates and in
//! ascending order.

use vstd::prelude::*;
use vstd::string::*;
use crate::order::{ascending, compare, lemma_text_lt_asymmetric, lemma_text_lt_transitive, text_lt, Rank};

verus! {

/// The texts of a sequence of strings, in its order.
pub open spec fn texts(strings: Seq<String>) -> Seq<Seq<char>> {
    strings.map_values(|s: String| s@)
}

/// An ascending sequence holds nothing twice.
pub proof fn lemma_ascending_no_duplicates(a: Seq<Seq<char>>)
    requires
        ascending(a),
    ensures
        a.no_duplicates(),
{
    assert forall|i: int, j: int| 0 <= i < a.len() && 0 <= j < a.len() && i != j implies a[i]
        != a[j] by {
        if i < j {
            lemma_text_lt_asymmetric(a[i], a[j]);
        } else {
            lemma_text_lt_asymmetric(a[j], a[i]);
        }
    }
}

/// Putting `x` into an ascending sequence at the place where everything
/// before it is smaller and everything behind it is greater keeps the
/// sequence ascending and adds `x` to what it holds.
pub proof fn lemma_insert_ascending(a: Seq<Seq<char>>, pos: int, x: Seq<char>)
    requires
        ascending(a),
        0 <= pos <= a.len(),
        forall|j: int| 0 <= j < pos ==> text_lt(#[trigger] a[j], x),
        forall|j: int| pos <= j < a.len() ==> text_lt(x, #[trigger] a[j]),
    ensures
        ascending(a.insert(pos, x)),
        a.insert(pos, x).to_set() == a.to_set().insert(x),
        !a.to_set().contains(x),
{
    let b = a.insert(pos, x);
    a.insert_ensures(pos, x);
    assert forall|i: int, j: int| 0 <= i < j < b.len() implies text_lt(
        #[trigger] b[i],
        #[trigger] b[j],
    ) by {
        if j < pos {
            assert(b[i] == a[i] && b[j] == a[j]);
        } else if j == pos {
            assert(b[i] == a[i]);
        } else if i < pos {
            assert(b[i] == a[i] && b[j] == a[j - 1]);
        } else if i == pos {
            assert(b[j] == a[j - 1]);
        } else {
            assert(b[i] == a[i - 1] && b[j] == a[j - 1]);
        }
    }
    assert forall|y: Seq<char>| b.to_set().contains(y) <==> a.to_set().insert(x).contains(y) by {
        if b.contains(y) {
            let i = choose|i: int| 0 <= i < b.len() && b[i] == y;
            if i < pos {
                assert(a[i] == y);
            } else if i > pos {
                assert(a[i - 1] == y);
            }
        }
        if a.contains(y) {
            let i = choose|i: int| 0 <= i < a.len() && a[i] == y;
            if i < pos {
                assert(b[i] == y);
            } else {
                assert(b[i + 1] == y);
            }
        }
        if y == x {
            assert(b[pos] == y);
        }
    }
    assert(b.to_set() =~= a.to_set().insert(x));
    if a.contains(x) {
        let i = choose|i: int| 0 <= i < a.len() && a[i] == x;
        if i < pos {
            lemma_text_lt_asymmetric(a[i], x);
        } else {
            lemma_text_lt_asymmetric(x, a[i]);
        }
    }
}

/// An ascending sequence is determined by what it holds: two ascending
/// sequences with the same members are the same sequence.
pub proof fn law_ascending_unique(a: Seq<Seq<char>>, b: Seq<Seq<char>>)
    requires
        ascending(a),
        ascending(b),
        a.to_set() == b.to_set(),
    ensures
        a == b,
    decreases a.len(),
{
    lemma_ascending_no_duplicates(a);
    lemma_ascending_no_duplicates(b);
    a.unique_seq_to_set();
    b.unique_seq_to_set();
    if a.len() == 0 {
        assert(a =~= b);
    } else {
        let n = a.len() as int;
        let x = a[n - 1];
        let y = b[n - 1];
        assert(a.contains(x));
        assert(b.contains(y));
        assert(b.to_set().contains(x));
        assert(a.to_set().contains(y));
        let j = choose|j: int| 0 <= j < b.len() && b[j] == x;
        let i = choose|i: int| 0 <= i < a.len() && a[i] == y;
        if j < n - 1 {
            assert(text_lt(b[j], b[n - 1]));
            if i < n - 1 {
                assert(text_lt(a[i], a[n - 1]));
            }
            lemma_text_lt_asymmetric(x, y);
        }
        assert(x == y);
        let a0 = a.drop_last();
        let b0 = b.drop_last();
        assert forall|z: Seq<char>| a0.to_set().contains(z) <==> b0.to_set().contains(z) by {
            if a0.contains(z) {
                let p = choose|p: int| 0 <= p < a0.len() && a0[p] == z;
                assert(a[p] == z);
                assert(a.contains(z));
                assert(b.to_set().contains(z));
                let q = choose|q: int| 0 <= q < b.len() && b[q] == z;
                assert(text_lt(a[p], a[n - 1]));
                lemma_text_lt_asymmetric(z, x);
                assert(b0[q] == z);
            }
            if b0.contains(z) {
                let p = choose|p: int| 0 <= p < b0.len() && b0[p] == z;
                assert(b[p] == z);
                assert(b.contains(z));
                assert(a.to_set().contains(z));
                let q = choose|q: int| 0 <= q < a.len() && a[q] == z;
                assert(text_lt(b[p], b[n - 1]));
                lemma_text_lt_asymmetric(z, y);
                assert(a0[q] == z);
            }
        }
        assert(a0.to_set() =~= b0.to_set());
        law_ascending_unique(a0, b0);
        assert(a =~= a0.push(x));
        assert(b =~= b0.push(y));
    }
}

/// The hostnames found so far. Nothing is held twice, and they are kept in
/// ascending order.
#[derive(Debug)]
pub struct ResultSet {
    hosts: Vec<String>,
}

impl View for ResultSet {
    type V = Set<Seq<char>>;

    /// The hostnames held.
    open spec fn view(&self) -> Set<Seq<char>> {
        self.hosts().to_set()
    }
}

impl ResultSet {
    /// The hostnames held, in the order in which they are kept.
    pub closed spec fn hosts(&self) -> Seq<Seq<char>> {
        texts(self.hosts@)
    }

    /// The hostnames are kept ascending, and so without duplicates.
    pub open spec fn wf(&self) -> bool {
        ascending(self.hosts())
    }

    /// A set that holds nothing.
    pub fn new() -> (set: ResultSet)
        ensures
            set.wf(),
            set.hosts() == Seq::<Seq<char>>::empty(),
            set@ == Set::<Seq<char>>::empty(),
    {
        let set = ResultSet { hosts: Vec::new() };
        proof {
            assert(set.hosts() =~= Seq::<Seq<char>>::empty());
            assert(set@ =~= Set::<Seq<char>>::empty());
        }
        set
    }

    /// The number of hostnames held.
    pub fn len(&self) -> (n: usize)
        requires
            self.wf(),
        ensures
            n == self.hosts().len(),
            n == self@.len(),
    {
        proof {
            lemma_ascending_no_duplicates(self.hosts());
            self.hosts().unique_seq_to_set();
        }
        self.hosts.len()
    }

    /// Whether nothing is held.
    pub fn is_empty(&self) -> (empty: bool)
        requires
            self.wf(),
        ensures
            empty == (self@.len() == 0),
            empty == (self@ == Set::<Seq<char>>::empty()),
    {
        proof {
            lemma_ascending_no_duplicates(self.hosts());
            self.hosts().unique_seq_to_set();
            if self.hosts().len() == 0 {
                assert(self@ =~= Set::<Seq<char>>::empty());
            } else {
                assert(self.hosts().contains(self.hosts()[0]));
            }
        }
        self.hosts.len() == 0
    }

    /// Whether `host` is held.
    pub fn contains(&self, host: &str) -> (held: bool)
        requires
            self.wf(),
        ensures
            held == self@.contains(host@),
    {
        let n: usize = self.hosts.len();
        let mut i: usize = 0;
        while i < n
            invariant
                i <= n,
                n == self.hosts@.len(),
                forall|j: int| 0 <= j < i ==> (#[trigger] self.hosts()[j]) != host@,
            decreases n - i,
        {
            let r = compare(self.hosts[i].as_str(), host);
            if let Rank::Same = r {
                proof {
                    assert(self.hosts()[i as int] == host@);
                    assert(self.hosts().contains(host@));
                }
                return true;
            }
            i += 1;
        }
        false
    }

    /// Adds `host` unless it is held already, and tells whether it was
    /// added. What was held stays held.
    pub fn insert(&mut self, host: String) -> (added: bool)
        requires
            old(self).wf(),
        ensures
            final(self).wf(),
            final(self)@ == old(self)@.insert(host@),
            added == !old(self)@.contains(host@),
            !added ==> final(self).hosts() == old(self).hosts(),
            added ==> final(self).hosts().len() == old(self).hosts().len() + 1,
    {
        let n: usize = self.hosts.len();
        let mut i: usize = 0;
        let mut placed: bool = false;
        while i < n && !placed
            invariant
                i <= n,
                n == self.hosts@.len(),
                *self == *old(self),
                self.wf(),
                forall|j: int| 0 <= j < i ==> text_lt(#[trigger] self.hosts()[j], host@),
                placed ==> i < n && text_lt(host@, self.hosts()[i as int]),
            decreases n - i + if placed { 0int } else { 1int },
        {
            let r = compare(self.hosts[i].as_str(), host.as_str());
            match r {
                Rank::Before => {
                    i += 1;
                },
                Rank::Same => {
                    proof {
                        assert(self.hosts()[i as int] == host@);
                        assert(self.hosts().contains(host@));
                        assert(self@.insert(host@) =~= self@);
                    }
                    return false;
                },
                Rank::After => {
                    placed = true;
                },
            }
        }
        proof {
            let a = self.hosts();
            assert forall|j: int| i <= j < a.len() implies text_lt(host@, #[trigger] a[j]) by {
                if j > i {
                    lemma_text_lt_transitive(host@, a[i as int], a[j]);
                }
            }
            lemma_insert_ascending(a, i as int, host@);
            assert(texts(self.hosts@.insert(i as int, host)) =~= a.insert(i as int, host@));
        }
        self.hosts.insert(i, host);
        true
    }

    /// Hands the hostnames out in ascending order.
    pub fn into_sorted(self) -> (sorted: Vec<String>)
        requires
            self.wf(),
        ensures
            texts(sorted@) == self.hosts(),
            ascending(texts(sorted@)),
            texts(sorted@).to_set() == self@,
    {
        self.hosts
    }
}

} // verus!
