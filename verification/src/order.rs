//! Facts on sequences sorted by a strict total order.
use vstd::prelude::*;

verus! {

/// `lt` is a strict total order.
pub open spec fn strict_total<A>(lt: spec_fn(A, A) -> bool) -> bool {
    &&& forall|x: A| !(#[trigger] lt(x, x))
    &&& forall|x: A, y: A, z: A| #[trigger] lt(x, y) && #[trigger] lt(y, z) ==> lt(x, z)
    &&& forall|x: A, y: A| x != y ==> #[trigger] lt(x, y) || lt(y, x)
}

/// Each element of `s` is before every later one under `lt`.
pub open spec fn sorted_by<A>(s: Seq<A>, lt: spec_fn(A, A) -> bool) -> bool {
    forall|i: int, j: int| 0 <= i < j < s.len() ==> lt(#[trigger] s[i], #[trigger] s[j])
}

/// Two sequences sorted by the same strict total order, with the same
/// elements, are equal.
pub proof fn lemma_sorted_unique<A>(a: Seq<A>, b: Seq<A>, lt: spec_fn(A, A) -> bool)
    requires
        strict_total(lt),
        sorted_by(a, lt),
        sorted_by(b, lt),
        forall|x: A| a.contains(x) <==> b.contains(x),
    ensures
        a == b,
    decreases a.len(),
{
    if a.len() == 0 {
        if b.len() > 0 {
            assert(b.contains(b[0]));
        }
        assert(a =~= b);
    } else {
        assert(a.contains(a[0]));
        assert(b.contains(a[0]));
        let k = choose|k: int| 0 <= k < b.len() && b[k] == a[0];
        assert(b.contains(b[0]));
        let m = choose|m: int| 0 <= m < a.len() && a[m] == b[0];
        if k > 0 {
            assert(lt(b[0], b[k]));
            if m > 0 {
                assert(lt(a[0], a[m]));
                assert(lt(a[0], a[0]));
            } else {
                assert(lt(b[0], b[0]));
            }
        }
        assert(a[0] == b[0]);
        let a1 = a.drop_first();
        let b1 = b.drop_first();
        assert forall|i: int, j: int| 0 <= i < j < a1.len() implies lt(
            #[trigger] a1[i],
            #[trigger] a1[j],
        ) by {
            assert(lt(a[i + 1], a[j + 1]));
        }
        assert forall|i: int, j: int| 0 <= i < j < b1.len() implies lt(
            #[trigger] b1[i],
            #[trigger] b1[j],
        ) by {
            assert(lt(b[i + 1], b[j + 1]));
        }
        assert forall|x: A| a1.contains(x) <==> b1.contains(x) by {
            if a1.contains(x) {
                let i = choose|i: int| 0 <= i < a1.len() && a1[i] == x;
                assert(lt(a[0], a[i + 1]));
                assert(b.contains(x));
                let j = choose|j: int| 0 <= j < b.len() && b[j] == x;
                if j == 0 {
                    assert(lt(x, x));
                }
                assert(b1[j - 1] == x);
            }
            if b1.contains(x) {
                let i = choose|i: int| 0 <= i < b1.len() && b1[i] == x;
                assert(lt(b[0], b[i + 1]));
                assert(a.contains(x));
                let j = choose|j: int| 0 <= j < a.len() && a[j] == x;
                if j == 0 {
                    assert(lt(x, x));
                }
                assert(a1[j - 1] == x);
            }
        }
        lemma_sorted_unique(a1, b1, lt);
        assert(a =~= seq![a[0]] + a1);
        assert(b =~= seq![b[0]] + b1);
    }
}

/// A sequence sorted by a strict order holds each element once.
pub proof fn lemma_sorted_distinct<A>(s: Seq<A>, lt: spec_fn(A, A) -> bool)
    requires
        strict_total(lt),
        sorted_by(s, lt),
    ensures
        forall|i: int, j: int| 0 <= i < s.len() && 0 <= j < s.len() && i != j ==> s[i] != s[j],
{
    assert forall|i: int, j: int|
        0 <= i < s.len() && 0 <= j < s.len() && i != j implies s[i] != s[j] by {
        if i < j {
            assert(lt(s[i], s[j]));
        } else {
            assert(lt(s[j], s[i]));
        }
    }
}

// ---------------------------------------------------------------------
// Inserting into sorted sequences
// ---------------------------------------------------------------------
/// Where `x` goes in the sorted `s`: after the elements before it.
pub open spec fn insert_pos<A>(s: Seq<A>, x: A, lt: spec_fn(A, A) -> bool) -> int
    decreases s.len(),
{
    if s.len() == 0 {
        0
    } else if lt(s.last(), x) {
        s.len() as int
    } else {
        insert_pos(s.drop_last(), x, lt)
    }
}

proof fn lemma_insert_pos<A>(s: Seq<A>, x: A, lt: spec_fn(A, A) -> bool)
    requires
        strict_total(lt),
        sorted_by(s, lt),
        !s.contains(x),
    ensures
        0 <= insert_pos(s, x, lt) <= s.len(),
        forall|r: int| 0 <= r < insert_pos(s, x, lt) ==> lt(#[trigger] s[r], x),
        forall|r: int| insert_pos(s, x, lt) <= r < s.len() ==> lt(x, #[trigger] s[r]),
    decreases s.len(),
{
    if s.len() > 0 {
        let s1 = s.drop_last();
        assert(sorted_by(s1, lt)) by {
            assert forall|i: int, j: int| 0 <= i < j < s1.len() implies lt(
                #[trigger] s1[i],
                #[trigger] s1[j],
            ) by {
                assert(lt(s[i], s[j]));
            }
        }
        assert(!s1.contains(x)) by {
            if s1.contains(x) {
                let k = choose|k: int| 0 <= k < s1.len() && s1[k] == x;
                assert(s[k] == x);
            }
        }
        if lt(s.last(), x) {
            assert forall|r: int| 0 <= r < s.len() implies lt(#[trigger] s[r], x) by {
                if r < s.len() - 1 {
                    assert(lt(s[r], s[s.len() - 1]));
                }
            }
        } else {
            lemma_insert_pos(s1, x, lt);
            assert(s[s.len() - 1] != x);
            assert forall|r: int| insert_pos(s, x, lt) <= r < s.len() implies lt(
                x,
                #[trigger] s[r],
            ) by {
                if r < s.len() - 1 {
                    assert(s1[r] == s[r]);
                }
            }
            assert forall|r: int| 0 <= r < insert_pos(s, x, lt) implies lt(#[trigger] s[r], x) by {
                assert(s1[r] == s[r]);
            }
        }
    }
}

/// Inserting `x` where it belongs keeps `s` sorted.
pub proof fn lemma_insert_sorted<A>(s: Seq<A>, x: A, lt: spec_fn(A, A) -> bool, q: int)
    requires
        strict_total(lt),
        sorted_by(s, lt),
        0 <= q <= s.len(),
        forall|r: int| 0 <= r < q ==> lt(#[trigger] s[r], x),
        forall|r: int| q <= r < s.len() ==> lt(x, #[trigger] s[r]),
    ensures
        sorted_by(s.insert(q, x), lt),
        forall|y: A| #[trigger] s.insert(q, x).contains(y) <==> (s.contains(y) || y == x),
{
    let s2 = s.insert(q, x);
    assert forall|a: int, b: int| 0 <= a < b < s2.len() implies lt(
        #[trigger] s2[a],
        #[trigger] s2[b],
    ) by {
        if a < q && b < q {
            assert(lt(s[a], s[b]));
        } else if a < q && b == q {
        } else if a < q {
            assert(s2[b] == s[b - 1]);
            assert(lt(s[a], s[b - 1]));
        } else if a == q {
            assert(s2[b] == s[b - 1]);
        } else {
            assert(lt(s[a - 1], s[b - 1]));
        }
    }
    assert forall|y: A| #[trigger] s2.contains(y) <==> (s.contains(y) || y == x) by {
        if s2.contains(y) {
            let k = choose|k: int| 0 <= k < s2.len() && s2[k] == y;
            if k < q {
                assert(s[k] == y);
            } else if k > q {
                assert(s[k - 1] == y);
            }
        }
        if s.contains(y) {
            let k = choose|k: int| 0 <= k < s.len() && s[k] == y;
            if k < q {
                assert(s2[k] == y);
            } else {
                assert(s2[k + 1] == y);
            }
        }
        if y == x {
            assert(s2[q] == y);
        }
    }
}

/// The elements of `elems` that satisfy `keep` can be listed sorted.
pub proof fn lemma_sorted_set_exists<A>(
    elems: Seq<A>,
    keep: spec_fn(A) -> bool,
    lt: spec_fn(A, A) -> bool,
) -> (s: Seq<A>)
    requires
        strict_total(lt),
    ensures
        sorted_by(s, lt),
        forall|y: A| #[trigger] s.contains(y) <==> (elems.contains(y) && keep(y)),
        s.len() <= elems.len(),
    decreases elems.len(),
{
    if elems.len() == 0 {
        Seq::empty()
    } else {
        let e1 = elems.drop_last();
        let x = elems.last();
        let s1 = lemma_sorted_set_exists(e1, keep, lt);
        assert forall|y: A| elems.contains(y) <==> (e1.contains(y) || y == x) by {
            if elems.contains(y) {
                let k = choose|k: int| 0 <= k < elems.len() && elems[k] == y;
                if k < elems.len() - 1 {
                    assert(e1[k] == y);
                }
            }
            if e1.contains(y) {
                let k = choose|k: int| 0 <= k < e1.len() && e1[k] == y;
                assert(elems[k] == y);
            }
            if y == x {
                assert(elems[elems.len() - 1] == y);
            }
        }
        if !keep(x) || s1.contains(x) {
            s1
        } else {
            lemma_insert_pos(s1, x, lt);
            let q = insert_pos(s1, x, lt);
            lemma_insert_sorted(s1, x, lt, q);
            s1.insert(q, x)
        }
    }
}

} // verus!
