//! Facts about sequences that the rest of the library leans on.

use vstd::prelude::*;

verus! {

/// One more element of `s` adds to `filter_map` what `f` makes of it.
pub proof fn lemma_filter_map_step<A, B>(s: Seq<A>, f: spec_fn(A) -> Option<B>, i: int)
    requires
        0 <= i < s.len(),
    ensures
        s.take(i + 1).filter_map(f) == match f(s[i]) {
            Some(x) => s.take(i).filter_map(f).push(x),
            None => s.take(i).filter_map(f),
        },
{
    let t = s.take(i + 1);
    assert(t.drop_last() =~= s.take(i));
    assert(t.last() == s[i]);
    match f(s[i]) {
        Some(x) => {
            assert(s.take(i).filter_map(f) + seq![x] =~= s.take(i).filter_map(f).push(x));
        },
        None => {},
    }
}

/// `s` has no two places that `lt` does not put in order, the earlier first.
pub open spec fn strictly_sorted<A>(s: Seq<A>, lt: spec_fn(A, A) -> bool) -> bool {
    forall|i: int, j: int| 0 <= i < j < s.len() ==> lt(#[trigger] s[i], #[trigger] s[j])
}

/// `lt` never holds both ways, nor of a value and itself.
pub open spec fn asymmetric<A>(lt: spec_fn(A, A) -> bool) -> bool {
    forall|x: A, y: A| #[trigger] lt(x, y) ==> !lt(y, x)
}

/// Two strictly sorted sequences with the same elements are the same sequence.
pub proof fn lemma_sorted_same_elements<A>(a: Seq<A>, b: Seq<A>, lt: spec_fn(A, A) -> bool)
    requires
        strictly_sorted(a, lt),
        strictly_sorted(b, lt),
        asymmetric(lt),
        forall|x: A| a.contains(x) <==> b.contains(x),
    ensures
        a == b,
    decreases a.len(),
{
    if a.len() == 0 {
        if b.len() > 0 {
            assert(b.contains(b[0]));
            assert(a.contains(b[0]));
        }
        assert(a =~= b);
    } else {
        assert(a.contains(a[0]));
        assert(b.contains(a[0]));
        let j = choose|j: int| 0 <= j < b.len() && b[j] == a[0];
        assert(b.contains(b[0]));
        assert(a.contains(b[0]));
        let i = choose|i: int| 0 <= i < a.len() && a[i] == b[0];
        if i > 0 && j > 0 {
            assert(lt(a[0], a[i]));
            assert(lt(b[0], b[j]));
            assert(false);
        }
        if i > 0 {
            // then j == 0, so b[0] == a[0] == a[i], and a[0] is before a[i]
            assert(lt(a[0], a[i]));
            assert(false);
        }
        if j > 0 {
            assert(lt(b[0], b[j]));
            assert(false);
        }
        assert(a[0] == b[0]);
        let a1 = a.drop_first();
        let b1 = b.drop_first();
        assert forall|x: A| a1.contains(x) <==> b1.contains(x) by {
            if a1.contains(x) {
                let p = choose|p: int| 0 <= p < a1.len() && a1[p] == x;
                assert(a[p + 1] == x);
                assert(lt(a[0], a[p + 1]));
                assert(a.contains(x));
                let q = choose|q: int| 0 <= q < b.len() && b[q] == x;
                if q == 0 {
                    assert(false);
                }
                assert(b1[q - 1] == x);
            }
            if b1.contains(x) {
                let p = choose|p: int| 0 <= p < b1.len() && b1[p] == x;
                assert(b[p + 1] == x);
                assert(lt(b[0], b[p + 1]));
                assert(b.contains(x));
                let q = choose|q: int| 0 <= q < a.len() && a[q] == x;
                if q == 0 {
                    assert(false);
                }
                assert(a1[q - 1] == x);
            }
        }
        assert(strictly_sorted(a1, lt)) by {
            assert forall|i: int, j: int| 0 <= i < j < a1.len() implies lt(
                #[trigger] a1[i],
                #[trigger] a1[j],
            ) by {
                assert(lt(a[i + 1], a[j + 1]));
            }
        }
        assert(strictly_sorted(b1, lt)) by {
            assert forall|i: int, j: int| 0 <= i < j < b1.len() implies lt(
                #[trigger] b1[i],
                #[trigger] b1[j],
            ) by {
                assert(lt(b[i + 1], b[j + 1]));
            }
        }
        lemma_sorted_same_elements(a1, b1, lt);
        assert(a =~= seq![a[0]] + a1);
        assert(b =~= seq![b[0]] + b1);
    }
}

/// Where `f` keeps an element as it is or drops it, `filter_map` holds the
/// elements that `f` keeps.
pub proof fn lemma_pick_members<A>(s: Seq<A>, f: spec_fn(A) -> Option<A>)
    requires
        forall|x: A| (#[trigger] f(x)) is Some ==> f(x) == Some(x),
    ensures
        forall|x: A| #[trigger] s.filter_map(f).contains(x) <==> s.contains(x) && f(x) is Some,
    decreases s.len(),
{
    let out = s.filter_map(f);
    if s.len() == 0 {
        assert forall|x: A| #[trigger] out.contains(x) <==> s.contains(x) && f(x) is Some by {}
    } else {
        let rest = s.drop_last();
        let last = s.last();
        let kept = rest.filter_map(f);
        lemma_pick_members(rest, f);
        assert forall|x: A| #[trigger] out.contains(x) <==> s.contains(x) && f(x) is Some by {
            if out.contains(x) {
                let i = choose|i: int| 0 <= i < out.len() && out[i] == x;
                if i < kept.len() {
                    assert(kept[i] == x);
                    assert(kept.contains(x));
                    let j = choose|j: int| 0 <= j < rest.len() && rest[j] == x;
                    assert(s[j] == x);
                } else {
                    assert(f(last) == Some(x));
                    assert(s[s.len() - 1] == x);
                }
            }
            if s.contains(x) && f(x) is Some {
                let j = choose|j: int| 0 <= j < s.len() && s[j] == x;
                if j < rest.len() {
                    assert(rest[j] == x);
                    assert(rest.contains(x));
                    assert(kept.contains(x));
                    let i = choose|i: int| 0 <= i < kept.len() && kept[i] == x;
                    assert(out[i] == x);
                } else {
                    assert(out[out.len() - 1] == x);
                }
            }
        }
    }
}

/// Each element of `filter_map` is what `f` makes of some element of `s`.
pub proof fn lemma_filter_map_source<A, B>(s: Seq<A>, f: spec_fn(A) -> Option<B>, i: int) -> (a:
    int)
    requires
        0 <= i < s.filter_map(f).len(),
    ensures
        0 <= a < s.len(),
        f(s[a]) == Some(s.filter_map(f)[i]),
    decreases s.len(),
{
    let out = s.filter_map(f);
    let rest = s.drop_last();
    let kept = rest.filter_map(f);
    if i < kept.len() {
        let a = lemma_filter_map_source(rest, f, i);
        assert(rest[a] == s[a]);
        assert(out[i] == kept[i]);
        a
    } else {
        assert(f(s.last()) == Some(out[i]));
        s.len() - 1
    }
}

/// `filter_map` keeps the order of `s`: of two of its elements the earlier
/// comes from the earlier element of `s`.
pub proof fn lemma_filter_map_order<A, B>(
    s: Seq<A>,
    f: spec_fn(A) -> Option<B>,
    i: int,
    j: int,
) -> (ab: (int, int))
    requires
        0 <= i < j < s.filter_map(f).len(),
    ensures
        0 <= ab.0 < ab.1 < s.len(),
        f(s[ab.0]) == Some(s.filter_map(f)[i]),
        f(s[ab.1]) == Some(s.filter_map(f)[j]),
    decreases s.len(),
{
    let out = s.filter_map(f);
    let rest = s.drop_last();
    let kept = rest.filter_map(f);
    if j < kept.len() {
        let ab = lemma_filter_map_order(rest, f, i, j);
        assert(rest[ab.0] == s[ab.0]);
        assert(rest[ab.1] == s[ab.1]);
        assert(out[i] == kept[i]);
        assert(out[j] == kept[j]);
        ab
    } else {
        let a = lemma_filter_map_source(rest, f, i);
        assert(rest[a] == s[a]);
        assert(out[i] == kept[i]);
        assert(f(s.last()) == Some(out[j]));
        (a, s.len() - 1)
    }
}

/// What `f` makes of an element of `s` is in `filter_map`.
pub proof fn lemma_filter_map_holds<A, B>(s: Seq<A>, f: spec_fn(A) -> Option<B>, a: int) -> (i:
    int)
    requires
        0 <= a < s.len(),
        f(s[a]) is Some,
    ensures
        0 <= i < s.filter_map(f).len(),
        f(s[a]) == Some(s.filter_map(f)[i]),
    decreases s.len(),
{
    let out = s.filter_map(f);
    let rest = s.drop_last();
    let kept = rest.filter_map(f);
    if a < s.len() - 1 {
        let i = lemma_filter_map_holds(rest, f, a);
        assert(rest[a] == s[a]);
        assert(out[i] == kept[i]);
        i
    } else {
        assert(s.last() == s[a]);
        out.len() - 1
    }
}

} // verus!
