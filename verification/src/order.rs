//! Lexicographic order on byte strings, the order in which actor identifiers
//! are compared.

use vstd::prelude::*;

verus! {

/// `a` and `b` hold the same bytes at every index below `k`.
pub open spec fn agree_upto(a: Seq<u8>, b: Seq<u8>, k: int) -> bool {
    &&& 0 <= k <= a.len()
    &&& k <= b.len()
    &&& forall|j: int| 0 <= j < k ==> a[j] == b[j]
}

/// `k` is the place that puts `a` before `b`: they agree below `k`, and there
/// `a` ends while `b` goes on, or `a` holds the smaller byte.
pub open spec fn less_at(a: Seq<u8>, b: Seq<u8>, k: int) -> bool {
    &&& agree_upto(a, b, k)
    &&& (k == a.len() && k < b.len()) || (k < a.len() && k < b.len() && a[k] < b[k])
}

/// `a` comes strictly before `b` in lexicographic order.
pub open spec fn bytes_lt(a: Seq<u8>, b: Seq<u8>) -> bool {
    exists|k: int| #[trigger] less_at(a, b, k)
}

/// The order never holds both ways.
pub proof fn lemma_bytes_lt_asymmetric(a: Seq<u8>, b: Seq<u8>)
    requires
        bytes_lt(a, b),
    ensures
        !bytes_lt(b, a),
        a != b,
{
    let k = choose|k: int| #[trigger] less_at(a, b, k);
    assert forall|m: int| !#[trigger] less_at(b, a, m) by {
        if less_at(b, a, m) {
            if m < k {
                assert(a[m] == b[m]);
            } else if k < m {
                assert(a[k] == b[k]);
            }
        }
    }
}

/// The order carries over a middle term.
pub proof fn lemma_bytes_lt_transitive(a: Seq<u8>, b: Seq<u8>, c: Seq<u8>)
    requires
        bytes_lt(a, b),
        bytes_lt(b, c),
    ensures
        bytes_lt(a, c),
{
    let k = choose|k: int| #[trigger] less_at(a, b, k);
    let m = choose|m: int| #[trigger] less_at(b, c, m);
    let n = if k <= m { k } else { m };
    assert forall|j: int| 0 <= j < n implies a[j] == c[j] by {
        assert(a[j] == b[j]);
        assert(b[j] == c[j]);
    }
    if k < m {
        assert(b[k] == c[k]);
    } else if m < k {
        assert(a[m] == b[m]);
    }
    assert(less_at(a, c, n));
}

/// Two different byte strings are ordered one way or the other.
pub proof fn lemma_bytes_total(x: Seq<u8>, y: Seq<u8>)
    ensures
        x == y || bytes_lt(x, y) || bytes_lt(y, x),
{
    let k = common_prefix(x, y, 0);
    lemma_common_prefix(x, y, 0);
    if k == x.len() && k == y.len() {
        assert(x =~= y);
    } else if k == x.len() || (k < y.len() && x[k] < y[k]) {
        assert(less_at(x, y, k));
    } else {
        assert(less_at(y, x, k));
    }
}

/// The first index at or after `i` where `x` and `y` part, or where one ends.
pub open spec fn common_prefix(x: Seq<u8>, y: Seq<u8>, i: int) -> int
    decreases x.len() - i,
{
    if 0 <= i < x.len() && i < y.len() && x[i] == y[i] {
        common_prefix(x, y, i + 1)
    } else {
        i
    }
}

/// Up to their first parting two byte strings agree, and there they differ.
pub proof fn lemma_common_prefix(x: Seq<u8>, y: Seq<u8>, i: int)
    requires
        0 <= i <= x.len(),
        i <= y.len(),
    ensures
        i <= common_prefix(x, y, i) <= x.len(),
        common_prefix(x, y, i) <= y.len(),
        forall|j: int| i <= j < common_prefix(x, y, i) ==> x[j] == y[j],
        common_prefix(x, y, i) < x.len() && common_prefix(x, y, i) < y.len() ==> x[common_prefix(
            x,
            y,
            i,
        )] != y[common_prefix(x, y, i)],
    decreases x.len() - i,
{
    if i < x.len() && i < y.len() && x[i] == y[i] {
        lemma_common_prefix(x, y, i + 1);
    }
}

/// How one value stands to another in a total order.
#[derive(Clone, Copy, Debug, PartialEq, Eq, Structural)]
pub enum Rank {
    Before,
    Same,
    After,
}

/// Compares two byte strings lexicographically.
pub fn rank_bytes(a: &[u8], b: &[u8]) -> (r: Rank)
    ensures
        r == Rank::Before <==> bytes_lt(a@, b@),
        r == Rank::Same <==> a@ == b@,
        r == Rank::After <==> bytes_lt(b@, a@),
{
    let mut i: usize = 0;
    while i < a.len() && i < b.len()
        invariant
            agree_upto(a@, b@, i as int),
        decreases a.len() - i,
    {
        if a[i] < b[i] {
            proof {
                assert(less_at(a@, b@, i as int));
                lemma_bytes_lt_asymmetric(a@, b@);
            }
            return Rank::Before;
        }
        if b[i] < a[i] {
            proof {
                assert(less_at(b@, a@, i as int));
                lemma_bytes_lt_asymmetric(b@, a@);
            }
            return Rank::After;
        }
        i = i + 1;
    }
    if i < b.len() {
        proof {
            assert(less_at(a@, b@, i as int));
            lemma_bytes_lt_asymmetric(a@, b@);
        }
        Rank::Before
    } else if i < a.len() {
        proof {
            assert(less_at(b@, a@, i as int));
            lemma_bytes_lt_asymmetric(b@, a@);
        }
        Rank::After
    } else {
        proof {
            assert(a@ =~= b@);
            if bytes_lt(a@, b@) {
                lemma_bytes_lt_asymmetric(a@, b@);
            }
        }
        Rank::Same
    }
}

} // verus!
