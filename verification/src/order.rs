//! Lexicographic order on sequences, and sorted listings of finite sets.

use vstd::prelude::*;

verus! {

/// `lt` orders `T` strictly: nothing is before itself, and the relation is transitive.
pub open spec fn strict_order<T>(lt: spec_fn(T, T) -> bool) -> bool {
    &&& forall|x: T| !#[trigger] lt(x, x)
    &&& forall|x: T, y: T, z: T| #[trigger] lt(x, y) && #[trigger] lt(y, z) ==> lt(x, z)
}

/// `a` and `b` hold the same items at every index below `k`.
pub open spec fn agree_below<T>(a: Seq<T>, b: Seq<T>, k: int) -> bool {
    &&& 0 <= k <= a.len()
    &&& k <= b.len()
    &&& forall|i: int| 0 <= i < k ==> a[i] == b[i]
}

/// Index `k` decides that `a` comes before `b`: the two agree below `k`, `b` goes on at `k`,
/// and `a` either ends there or holds a smaller item.
pub open spec fn decided_at<T>(a: Seq<T>, b: Seq<T>, lt: spec_fn(T, T) -> bool, k: int) -> bool {
    &&& agree_below(a, b, k)
    &&& k < b.len()
    &&& (k == a.len() || lt(a[k], b[k]))
}

/// `a` comes before `b` in the lexicographic order that `lt` induces.
pub open spec fn lex_lt<T>(a: Seq<T>, b: Seq<T>, lt: spec_fn(T, T) -> bool) -> bool {
    exists|k: int| decided_at(a, b, lt, k)
}

/// No sequence comes before itself.
pub proof fn lemma_lex_irreflexive<T>(a: Seq<T>, lt: spec_fn(T, T) -> bool)
    requires
        strict_order(lt),
    ensures
        !lex_lt(a, a, lt),
{
}

/// The lexicographic order is transitive.
pub proof fn lemma_lex_transitive<T>(a: Seq<T>, b: Seq<T>, c: Seq<T>, lt: spec_fn(T, T) -> bool)
    requires
        strict_order(lt),
        lex_lt(a, b, lt),
        lex_lt(b, c, lt),
    ensures
        lex_lt(a, c, lt),
{
    let k1 = choose|k: int| decided_at(a, b, lt, k);
    let k2 = choose|k: int| decided_at(b, c, lt, k);
    let k = if k1 <= k2 { k1 } else { k2 };
    assert(agree_below(a, c, k));
    if k1 < k2 {
        assert(b[k1] == c[k1]);
    } else if k2 < k1 {
        assert(a[k2] == b[k2]);
    }
    assert(decided_at(a, c, lt, k));
}

/// Two sequences are never each before the other.
pub proof fn lemma_lex_asymmetric<T>(a: Seq<T>, b: Seq<T>, lt: spec_fn(T, T) -> bool)
    requires
        strict_order(lt),
        lex_lt(a, b, lt),
    ensures
        !lex_lt(b, a, lt),
        a != b,
{
    lemma_lex_irreflexive(a, lt);
    if lex_lt(b, a, lt) {
        lemma_lex_transitive(a, b, a, lt);
    }
}

/// The lexicographic order induced by a strict order is itself a strict order.
pub proof fn lemma_lex_strict_order<T>(lt: spec_fn(T, T) -> bool)
    requires
        strict_order(lt),
    ensures
        strict_order(|a: Seq<T>, b: Seq<T>| lex_lt(a, b, lt)),
{
    let lifted = |a: Seq<T>, b: Seq<T>| lex_lt(a, b, lt);
    assert forall|x: Seq<T>| !#[trigger] lifted(x, x) by {
        lemma_lex_irreflexive(x, lt);
    }
    assert forall|x: Seq<T>, y: Seq<T>, z: Seq<T>| #[trigger]
        lifted(x, y) && #[trigger] lifted(y, z) implies lifted(x, z) by {
        lemma_lex_transitive(x, y, z, lt);
    }
}

/// `s` is strictly increasing under `lt`.
pub open spec fn increasing<T>(s: Seq<T>, lt: spec_fn(T, T) -> bool) -> bool {
    forall|i: int, j: int| 0 <= i < j < s.len() ==> #[trigger] lt(s[i], s[j])
}

/// `s` lists exactly the members of `set`, each once, in increasing order.
pub open spec fn lists<T>(s: Seq<T>, set: Set<T>, lt: spec_fn(T, T) -> bool) -> bool {
    &&& increasing(s, lt)
    &&& forall|x: T| s.contains(x) <==> set.contains(x)
}

/// A set has at most one increasing listing.
pub proof fn lemma_listing_unique<T>(s: Seq<T>, t: Seq<T>, set: Set<T>, lt: spec_fn(T, T) -> bool)
    requires
        strict_order(lt),
        lists(s, set, lt),
        lists(t, set, lt),
    ensures
        s == t,
    decreases s.len(),
{
    if s.len() == 0 {
        if t.len() > 0 {
            assert(t.contains(t[0]));
        }
        assert(s =~= t);
    } else {
        assert(s.contains(s[0]));
        assert(t.contains(s[0]));
        let j = choose|j: int| 0 <= j < t.len() && t[j] == s[0];
        assert(t.contains(t[0]));
        assert(s.contains(t[0]));
        let i = choose|i: int| 0 <= i < s.len() && s[i] == t[0];
        // s[0] and t[0] are both least members of the set.
        assert(s[0] == t[0]) by {
            if i > 0 && j > 0 {
                assert(lt(s[0], s[i]));
                assert(lt(t[0], t[j]));
            }
            if i > 0 && j == 0 {
                assert(lt(s[0], s[i]));
            }
            if i == 0 && j > 0 {
                assert(lt(t[0], t[j]));
            }
        }
        let s1 = s.drop_first();
        let t1 = t.drop_first();
        let rest = set.remove(s[0]);
        assert(increasing(s1, lt)) by {
            assert forall|p: int, q: int| 0 <= p < q < s1.len() implies #[trigger] lt(
                s1[p],
                s1[q],
            ) by {
                assert(lt(s[p + 1], s[q + 1]));
            }
        }
        assert(increasing(t1, lt)) by {
            assert forall|p: int, q: int| 0 <= p < q < t1.len() implies #[trigger] lt(
                t1[p],
                t1[q],
            ) by {
                assert(lt(t[p + 1], t[q + 1]));
            }
        }
        assert forall|x: T| s1.contains(x) <==> rest.contains(x) by {
            if s1.contains(x) {
                let p = choose|p: int| 0 <= p < s1.len() && s1[p] == x;
                assert(s[p + 1] == x);
                assert(lt(s[0], s[p + 1]));
                assert(s.contains(x));
            }
            if rest.contains(x) {
                assert(s.contains(x));
                let p = choose|p: int| 0 <= p < s.len() && s[p] == x;
                assert(s1[p - 1] == x);
            }
        }
        assert forall|x: T| t1.contains(x) <==> rest.contains(x) by {
            if t1.contains(x) {
                let p = choose|p: int| 0 <= p < t1.len() && t1[p] == x;
                assert(t[p + 1] == x);
                assert(lt(t[0], t[p + 1]));
                assert(t.contains(x));
            }
            if rest.contains(x) {
                assert(t.contains(x));
                let p = choose|p: int| 0 <= p < t.len() && t[p] == x;
                assert(t1[p - 1] == x);
            }
        }
        lemma_listing_unique(s1, t1, rest, lt);
        assert(s =~= seq![s[0]] + s1);
        assert(t =~= seq![t[0]] + t1);
    }
}

/// Putting `x` between the items that are before it and those that are after it keeps a
/// listing a listing.
pub proof fn lemma_insert_keeps_listing<T>(
    s: Seq<T>,
    set: Set<T>,
    x: T,
    at: int,
    lt: spec_fn(T, T) -> bool,
)
    requires
        lists(s, set, lt),
        0 <= at <= s.len(),
        forall|i: int| 0 <= i < at ==> lt(#[trigger] s[i], x),
        forall|i: int| at <= i < s.len() ==> lt(x, #[trigger] s[i]),
    ensures
        lists(s.insert(at, x), set.insert(x), lt),
{
    let t = s.insert(at, x);
    assert forall|i: int, j: int| 0 <= i < j < t.len() implies #[trigger] lt(t[i], t[j]) by {
        if j < at {
            assert(lt(s[i], s[j]));
        } else if j == at {
            assert(lt(s[i], x));
        } else if i < at {
            assert(lt(s[i], s[j - 1]));
        } else if i == at {
            assert(lt(x, s[j - 1]));
        } else {
            assert(lt(s[i - 1], s[j - 1]));
        }
    }
    assert forall|y: T| t.contains(y) <==> set.insert(x).contains(y) by {
        if t.contains(y) {
            let k = choose|k: int| 0 <= k < t.len() && t[k] == y;
            if k < at {
                assert(s.contains(s[k]));
            } else if k > at {
                assert(s.contains(s[k - 1]));
            }
        }
        if set.contains(y) {
            assert(s.contains(y));
            let k = choose|k: int| 0 <= k < s.len() && s[k] == y;
            if k < at {
                assert(t[k] == y);
            } else {
                assert(t[k + 1] == y);
            }
        }
        if y == x {
            assert(t[at] == y);
        }
    }
}

/// Of two different values one is before the other.
pub open spec fn connected_order<T>(lt: spec_fn(T, T) -> bool) -> bool {
    forall|x: T, y: T| x != y ==> #[trigger] lt(x, y) || lt(y, x)
}

/// The number of leading items of `s` that are before `x`.
pub open spec fn rank<T>(s: Seq<T>, x: T, lt: spec_fn(T, T) -> bool) -> nat
    decreases s.len(),
{
    if s.len() > 0 && lt(s[0], x) {
        1 + rank(s.drop_first(), x, lt)
    } else {
        0
    }
}

/// In an increasing sequence that lacks `x`, the items below the rank of `x` are before `x`
/// and those from the rank on are after it.
proof fn lemma_rank_splits<T>(s: Seq<T>, x: T, lt: spec_fn(T, T) -> bool)
    requires
        strict_order(lt),
        connected_order(lt),
        increasing(s, lt),
        !s.contains(x),
    ensures
        rank(s, x, lt) <= s.len(),
        forall|i: int| 0 <= i < rank(s, x, lt) ==> lt(#[trigger] s[i], x),
        forall|i: int| rank(s, x, lt) <= i < s.len() ==> lt(x, #[trigger] s[i]),
    decreases s.len(),
{
    if s.len() > 0 {
        assert(s.contains(s[0]));
        if lt(s[0], x) {
            let rest = s.drop_first();
            assert(increasing(rest, lt)) by {
                assert forall|p: int, q: int| 0 <= p < q < rest.len() implies #[trigger] lt(
                    rest[p],
                    rest[q],
                ) by {
                    assert(lt(s[p + 1], s[q + 1]));
                }
            }
            assert(!rest.contains(x)) by {
                if rest.contains(x) {
                    let k = choose|k: int| 0 <= k < rest.len() && rest[k] == x;
                    assert(s[k + 1] == x);
                }
            }
            lemma_rank_splits(rest, x, lt);
            assert forall|i: int| 0 <= i < rank(s, x, lt) implies lt(#[trigger] s[i], x) by {
                if i > 0 {
                    assert(lt(rest[i - 1], x));
                }
            }
            assert forall|i: int| rank(s, x, lt) <= i < s.len() implies lt(x, #[trigger] s[i]) by {
                assert(lt(x, rest[i - 1]));
            }
        } else {
            assert(lt(x, s[0]));
            assert forall|i: int| 0 <= i < s.len() implies lt(x, #[trigger] s[i]) by {
                if i > 0 {
                    assert(lt(s[0], s[i]));
                }
            }
        }
    }
}

/// Every finite set has an increasing listing.
pub proof fn lemma_finite_set_has_listing<T>(set: Set<T>, lt: spec_fn(T, T) -> bool)
    requires
        strict_order(lt),
        connected_order(lt),
        set.finite(),
    ensures
        exists|s: Seq<T>| lists(s, set, lt),
    decreases set.len(),
{
    if set.len() == 0 {
        let s = Seq::<T>::empty();
        assert forall|x: T| s.contains(x) <==> set.contains(x) by {
            if set.contains(x) {
                assert(set.len() > 0) by {
                    vstd::set_lib::lemma_set_empty_equivalency_len(set);
                }
            }
        }
        assert(lists(s, set, lt));
    } else {
        let x = set.choose();
        let rest = set.remove(x);
        lemma_finite_set_has_listing(rest, lt);
        let before = choose|s: Seq<T>| lists(s, rest, lt);
        lemma_rank_splits(before, x, lt);
        let at = rank(before, x, lt) as int;
        lemma_insert_keeps_listing(before, rest, x, at, lt);
        assert(rest.insert(x) =~= set);
    }
}

/// Only the empty sequence lists the empty set.
pub proof fn lemma_listing_of_empty<T>(s: Seq<T>, lt: spec_fn(T, T) -> bool)
    requires
        lists(s, Set::<T>::empty(), lt),
    ensures
        s == Seq::<T>::empty(),
{
    if s.len() > 0 {
        assert(s.contains(s[0]));
    }
    assert(s =~= Seq::<T>::empty());
}

} // verus!
