//! The order in which hostnames are reported: that of their UTF-8 bytes,
//! the first differing byte deciding and a proper prefix coming first.

use vstd::prelude::*;
use vstd::string::*;
use vstd::utf8::*;

verus! {

/// `a` and `b` agree on their first `k` bytes, and at position `k` either
/// `a` ends while `b` goes on or `a` holds the smaller byte.
pub open spec fn decided_at(a: Seq<u8>, b: Seq<u8>, k: int) -> bool {
    &&& 0 <= k <= a.len()
    &&& k < b.len()
    &&& forall|j: int| 0 <= j < k ==> a[j] == b[j]
    &&& (k == a.len() || a[k] < b[k])
}

/// `a` comes strictly before `b` in lexicographic byte order.
pub open spec fn bytes_lt(a: Seq<u8>, b: Seq<u8>) -> bool {
    exists|k: int| #[trigger] decided_at(a, b, k)
}

/// `a` comes strictly before `b`: the order of `str` and `String`.
pub open spec fn text_lt(a: Seq<char>, b: Seq<char>) -> bool {
    bytes_lt(encode_utf8(a), encode_utf8(b))
}

/// Each text comes strictly before every later one.
pub open spec fn ascending(texts: Seq<Seq<char>>) -> bool {
    forall|i: int, j: int| 0 <= i < j < texts.len() ==> text_lt(#[trigger] texts[i], #[trigger] texts[j])
}

/// Nothing comes before itself, and of two byte strings at most one comes
/// before the other.
pub proof fn lemma_bytes_lt_asymmetric(a: Seq<u8>, b: Seq<u8>)
    requires
        bytes_lt(a, b),
    ensures
        !bytes_lt(b, a),
        a != b,
{
    let k = choose|k: int| #[trigger] decided_at(a, b, k);
    if bytes_lt(b, a) {
        let m = choose|m: int| #[trigger] decided_at(b, a, m);
        if k < m {
            assert(b[k] == a[k]);
        } else if m < k {
            assert(a[m] == b[m]);
        }
    }
}

/// What comes before something that comes before a third comes before the
/// third.
pub proof fn lemma_bytes_lt_transitive(a: Seq<u8>, b: Seq<u8>, c: Seq<u8>)
    requires
        bytes_lt(a, b),
        bytes_lt(b, c),
    ensures
        bytes_lt(a, c),
{
    let k = choose|k: int| #[trigger] decided_at(a, b, k);
    let m = choose|m: int| #[trigger] decided_at(b, c, m);
    let d = if k <= m {
        k
    } else {
        m
    };
    assert forall|j: int| 0 <= j < d implies a[j] == c[j] by {
        assert(a[j] == b[j]);
        assert(b[j] == c[j]);
    }
    if k < m {
        assert(b[k] == c[k]);
    }
    assert(decided_at(a, c, d));
}

/// Of two texts exactly one holds: the first comes before the second, they
/// are equal, or the second comes before the first.
pub proof fn lemma_text_lt_asymmetric(a: Seq<char>, b: Seq<char>)
    requires
        text_lt(a, b),
    ensures
        !text_lt(b, a),
        a != b,
{
    lemma_bytes_lt_asymmetric(encode_utf8(a), encode_utf8(b));
}

/// The order of texts is transitive.
pub proof fn lemma_text_lt_transitive(a: Seq<char>, b: Seq<char>, c: Seq<char>)
    requires
        text_lt(a, b),
        text_lt(b, c),
    ensures
        text_lt(a, c),
{
    lemma_bytes_lt_transitive(encode_utf8(a), encode_utf8(b), encode_utf8(c));
}

/// Where two texts stand to each other.
#[derive(Debug, Clone, Copy, PartialEq, Eq)]
pub enum Rank {
    /// The first comes strictly before the second.
    Before,
    /// The two are equal.
    Same,
    /// The first comes strictly after the second.
    After,
}

/// Tells where `a` stands to `b`.
pub fn compare(a: &str, b: &str) -> (r: Rank)
    ensures
        r is Before <==> text_lt(a@, b@),
        r is Same <==> a@ == b@,
        r is After <==> text_lt(b@, a@),
{
    let x = a.as_bytes();
    let y = b.as_bytes();
    let n: usize = x.len();
    let m: usize = y.len();
    let mut i: usize = 0;
    while i < n && i < m
        invariant
            n == x@.len(),
            m == y@.len(),
            x@ == encode_utf8(a@),
            y@ == encode_utf8(b@),
            i <= n,
            i <= m,
            forall|j: int| 0 <= j < i ==> x@[j] == y@[j],
        decreases n - i,
    {
        if x[i] < y[i] {
            proof {
                assert(decided_at(x@, y@, i as int));
                lemma_text_lt_asymmetric(a@, b@);
            }
            return Rank::Before;
        }
        if x[i] > y[i] {
            proof {
                assert(decided_at(y@, x@, i as int));
                lemma_text_lt_asymmetric(b@, a@);
            }
            return Rank::After;
        }
        i += 1;
    }
    if n < m {
        proof {
            assert(decided_at(x@, y@, n as int));
            lemma_text_lt_asymmetric(a@, b@);
        }
        Rank::Before
    } else if m < n {
        proof {
            assert(decided_at(y@, x@, m as int));
            lemma_text_lt_asymmetric(b@, a@);
        }
        Rank::After
    } else {
        proof {
            assert(x@ =~= y@);
            encode_utf8_decode_utf8(a@);
            encode_utf8_decode_utf8(b@);
            if text_lt(a@, b@) {
                lemma_text_lt_asymmetric(a@, b@);
            }
            if text_lt(b@, a@) {
                lemma_text_lt_asymmetric(b@, a@);
            }
        }
        Rank::Same
    }
}

} // verus!
