//! Stable ordering by an integer key: what it means, and the insertion step
//! that keeps it.
use vstd::prelude::*;

verus! {

/// `s` is ordered by `key`, smallest first.
pub open spec fn sorted_by<A>(s: Seq<A>, key: spec_fn(A) -> int) -> bool {
    forall|i: int, j: int| 0 <= i <= j < s.len() ==> key(s[i]) <= key(s[j])
}

/// The elements whose key is `p`.
pub open spec fn key_is<A>(key: spec_fn(A) -> int, p: int) -> spec_fn(A) -> bool {
    |a: A| key(a) == p
}

/// `r` is `s` stably sorted by `key`: ordered by key, and for every key the
/// elements that carry it come in the order they had in `s`. Exactly one
/// sequence is the stable sort of `s`.
pub open spec fn stable_sorted_of<A>(r: Seq<A>, s: Seq<A>, key: spec_fn(A) -> int) -> bool {
    &&& r.len() == s.len()
    &&& sorted_by(r, key)
    &&& forall|p: int| #[trigger] r.filter(key_is(key, p)) == s.filter(key_is(key, p))
}

/// No element of `s` satisfies `pred`: filtering leaves nothing.
proof fn lemma_filter_none<A>(s: Seq<A>, pred: spec_fn(A) -> bool)
    requires
        forall|i: int| 0 <= i < s.len() ==> !pred(s[i]),
    ensures
        s.filter(pred) == Seq::<A>::empty(),
    decreases s.len(),
{
    if s.len() == 0 {
        assert(s.filter(pred) =~= Seq::<A>::empty()) by {
            reveal_with_fuel(Seq::filter, 1);
        }
    } else {
        let d = s.drop_last();
        lemma_filter_none(d, pred);
        d.lemma_filter_push(s.last(), pred);
        assert(d.push(s.last()) =~= s);
    }
}

/// Inserting `x` after every element whose key is at most its own keeps
/// the sequence the stable sort of its source with `x` appended.
pub proof fn lemma_stable_insert<A>(r: Seq<A>, s: Seq<A>, x: A, j: int, key: spec_fn(A) -> int)
    requires
        stable_sorted_of(r, s, key),
        0 <= j <= r.len(),
        forall|i: int| 0 <= i < j ==> key(r[i]) <= key(x),
        forall|i: int| j <= i < r.len() ==> key(r[i]) > key(x),
    ensures
        stable_sorted_of(r.insert(j, x), s.push(x), key),
{
    let r2 = r.insert(j, x);
    let a = r.subrange(0, j);
    let b = r.subrange(j, r.len() as int);
    assert(r2 =~= a + seq![x] + b);
    assert(r =~= a + b);
    assert forall|i: int, k: int| 0 <= i <= k < r2.len() implies key(r2[i]) <= key(r2[k]) by {
        if i < j && k > j {
            assert(r2[k] == r[k - 1]);
        } else if i > j {
            assert(r2[i] == r[i - 1]);
            assert(r2[k] == r[k - 1]);
        }
    }
    assert forall|p: int| #[trigger] r2.filter(key_is(key, p)) == s.push(x).filter(key_is(key, p)) by {
        let f = key_is(key, p);
        Seq::filter_distributes_over_add(a + seq![x], b, f);
        Seq::filter_distributes_over_add(a, seq![x], f);
        Seq::filter_distributes_over_add(a, b, f);
        s.lemma_filter_push(x, f);
        assert(seq![x].filter(f) =~= if f(x) { seq![x] } else { Seq::<A>::empty() }) by {
            reveal_with_fuel(Seq::filter, 2);
        }
        if key(x) == p {
            lemma_filter_none(b, f);
        }
        assert(r.filter(f) == s.filter(f));
    }
}

/// The empty sequence is the stable sort of itself.
pub proof fn lemma_stable_empty<A>(key: spec_fn(A) -> int)
    ensures
        stable_sorted_of(Seq::<A>::empty(), Seq::<A>::empty(), key),
{
    assert forall|p: int| #[trigger] Seq::<A>::empty().filter(key_is(key, p)) == Seq::<A>::empty().filter(
        key_is(key, p),
    ) by {}
}

/// What a filter keeps was in the sequence.
pub proof fn lemma_filter_subset<A>(s: Seq<A>, pred: spec_fn(A) -> bool, a: A)
    requires
        s.filter(pred).contains(a),
    ensures
        s.contains(a),
    decreases s.len(),
{
    if s.len() == 0 {
        assert(s.filter(pred) =~= Seq::<A>::empty()) by {
            reveal_with_fuel(Seq::filter, 1);
        }
    } else {
        let d = s.drop_last();
        d.lemma_filter_push(s.last(), pred);
        assert(d.push(s.last()) =~= s);
        let i = choose|i: int| 0 <= i < s.filter(pred).len() && s.filter(pred)[i] == a;
        if a != s.last() || !pred(s.last()) {
            if pred(s.last()) {
                assert(i < d.filter(pred).len());
                assert(d.filter(pred)[i] == a);
            } else {
                assert(d.filter(pred)[i] == a);
            }
            lemma_filter_subset(d, pred, a);
            let j = choose|j: int| 0 <= j < d.len() && d[j] == a;
            assert(s[j] == a);
        } else {
            assert(s[s.len() - 1] == a);
        }
    }
}

/// Every element of a stable sort of `s` is an element of `s`.
pub proof fn lemma_stable_elements<A>(r: Seq<A>, s: Seq<A>, key: spec_fn(A) -> int, x: int)
    requires
        stable_sorted_of(r, s, key),
        0 <= x < r.len(),
    ensures
        s.contains(r[x]),
{
    let f = key_is(key, key(r[x]));
    r.filter_lemma(f);
    assert(r.filter(f).contains(r[x]));
    assert(r.filter(f) == s.filter(f));
    lemma_filter_subset(s, f, r[x]);
}

/// Key of a (register offset, value) pair: its offset.
pub open spec fn by_offset() -> spec_fn((usize, u32)) -> int {
    |p: (usize, u32)| p.0 as int
}

/// Stably sort (offset, value) pairs by offset.
pub fn sort_pairs_by_offset(v: &Vec<(usize, u32)>) -> (r: Vec<(usize, u32)>)
    ensures
        stable_sorted_of(r@, v@, by_offset()),
        r@.to_multiset() == v@.to_multiset(),
{
    let mut out: Vec<(usize, u32)> = Vec::new();
    proof {
        lemma_stable_empty(by_offset());
        assert(v@.subrange(0, 0) =~= Seq::<(usize, u32)>::empty());
    }
    let mut i: usize = 0;
    while i < v.len()
        invariant
            i <= v@.len(),
            stable_sorted_of(out@, v@.subrange(0, i as int), by_offset()),
            out@.to_multiset() == v@.subrange(0, i as int).to_multiset(),
        decreases v.len() - i,
    {
        let x = v[i];
        let mut j: usize = 0;
        while j < out.len() && out[j].0 <= x.0
            invariant
                j <= out@.len(),
                forall|k: int| 0 <= k < j ==> (by_offset())(out@[k]) <= (by_offset())(x),
            decreases out.len() - j,
        {
            j = j + 1;
        }
        proof {
            assert forall|k: int| j <= k < out@.len() implies (by_offset())(out@[k]) > (by_offset())(x) by {
                assert((by_offset())(out@[j as int]) <= (by_offset())(out@[k]));
            }
            lemma_stable_insert(out@, v@.subrange(0, i as int), x, j as int, by_offset());
            assert(v@.subrange(0, i as int).push(x) =~= v@.subrange(0, i + 1));
        }
        let ghost o0 = out@;
        out.insert(j, x);
        proof {
            vstd::seq_lib::to_multiset_insert(o0, j as int, x);
            vstd::seq_lib::to_multiset_build(v@.subrange(0, i as int), x);
        }
        i = i + 1;
    }
    proof {
        assert(v@.subrange(0, v@.len() as int) =~= v@);
    }
    out
}

} // verus!
