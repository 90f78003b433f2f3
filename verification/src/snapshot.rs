//! Register snapshots: offset-to-value maps read from a GPU's BAR0.
use std::collections::BTreeMap;
use vstd::prelude::*;
use vstd::std_specs::cmp::OrdSpec;
use vstd::std_specs::iter::IteratorSpec;
use vstd::laws_cmp::obeys_cmp;

verus! {

/// `s` is strictly increasing.
pub open spec fn strictly_increasing(s: Seq<usize>) -> bool {
    forall|i: int, j: int| 0 <= i < j < s.len() ==> s[i] < s[j]
}

/// The keys of a register snapshot, in increasing order.
pub fn snapshot_keys(m: &BTreeMap<usize, u32>) -> (r: Vec<usize>)
    ensures
        r@.to_set() == m@.dom(),
        strictly_increasing(r@),
{
    broadcast use vstd::std_specs::btree::group_btree_axioms;
    broadcast use vstd::laws_cmp::group_laws_cmp;
    let mut v: Vec<usize> = Vec::new();
    let ghost ks = m.keys().remaining();
    for k in it: m.keys()
        invariant
            it.seq() == ks,
            v@ == it.seq().take(it.index()).map_values(|x: &usize| *x),
    {
        v.push(*k);
        proof {
            assert(it.seq().take(it.index() + 1) =~= it.seq().take(it.index()).push(k));
        }
    }
    proof {
        assert(v@ =~= ks.map_values(|x: &usize| *x));
        assert(ks.unref() =~= v@);
        assert(ks == vstd::std_specs::btree::spec_keys_iter(m).remaining());
        assert(vstd::std_specs::btree::increasing_seq(ks));
        assert(obeys_cmp::<&usize>());
        vstd::std_specs::btree::axiom_increasing_seq_meaning::<&usize>(ks);
        assert forall|i: int, j: int| 0 <= i < j < v@.len() implies v@[i] < v@[j] by {
            assert(OrdSpec::cmp_spec(&ks[i], &ks[j]) is Less);
        }
    }
    v
}
/// The value a snapshot holds for `off`, 0 when it holds none.
pub open spec fn value_or_zero(m: Map<usize, u32>, off: usize) -> u32 {
    if m.contains_key(off) {
        m[off]
    } else {
        0
    }
}

/// The value a snapshot holds for `off`, 0 when it holds none.
pub fn snapshot_value(m: &BTreeMap<usize, u32>, off: usize) -> (r: u32)
    ensures
        r == value_or_zero(m@, off),
{
    broadcast use vstd::std_specs::btree::group_btree_axioms;
    broadcast use vstd::laws_cmp::group_laws_cmp;
    match m.get(&off) {
        Some(v) => *v,
        None => 0,
    }
}

/// Merge two strictly increasing key lists into the strictly increasing
/// list of their union.
fn merge_keys(a: &Vec<usize>, b: &Vec<usize>) -> (r: Vec<usize>)
    requires
        strictly_increasing(a@),
        strictly_increasing(b@),
    ensures
        strictly_increasing(r@),
        r@.to_set() == a@.to_set() + b@.to_set(),
{
    let mut out: Vec<usize> = Vec::new();
    let mut i: usize = 0;
    let mut j: usize = 0;
    while i < a.len() || j < b.len()
        invariant
            strictly_increasing(a@),
            strictly_increasing(b@),
            i <= a@.len(),
            j <= b@.len(),
            strictly_increasing(out@),
            out@.to_set() == a@.subrange(0, i as int).to_set() + b@.subrange(0, j as int).to_set(),
            forall|k: int| 0 <= k < out@.len() ==> (i < a@.len() ==> out@[k] < a@[i as int]) && (j
                < b@.len() ==> out@[k] < b@[j as int]),
        decreases a@.len() + b@.len() - i - j,
    {
        let ghost oi = i;
        let ghost oj = j;
        let take_a = j >= b.len() || (i < a.len() && a[i] <= b[j]);
        let x = if take_a {
            a[i]
        } else {
            b[j]
        };
        if take_a && j < b.len() && a[i] == b[j] {
            j = j + 1;
        }
        if take_a {
            i = i + 1;
        } else {
            j = j + 1;
        }
        let ghost ob = out@;
        out.push(x);
        proof {
            assert(out@.drop_last() =~= ob);
            assert(a@.subrange(0, i as int).to_set() + b@.subrange(0, j as int).to_set() =~= a@.subrange(
                0,
                oi as int,
            ).to_set() + b@.subrange(0, oj as int).to_set() + set![x]) by {
                assert forall|y: usize| #[trigger] (a@.subrange(0, i as int).to_set() + b@.subrange(
                    0,
                    j as int,
                ).to_set()).contains(y) <==> (a@.subrange(0, oi as int).to_set() + b@.subrange(
                    0,
                    oj as int,
                ).to_set() + set![x]).contains(y) by {
                    if a@.subrange(0, i as int).contains(y) {
                        let k = choose|k: int| 0 <= k < i && a@.subrange(0, i as int)[k] == y;
                        if k < oi {
                            assert(a@.subrange(0, oi as int)[k] == y);
                        }
                    }
                    if b@.subrange(0, j as int).contains(y) {
                        let k = choose|k: int| 0 <= k < j && b@.subrange(0, j as int)[k] == y;
                        if k < oj {
                            assert(b@.subrange(0, oj as int)[k] == y);
                        }
                    }
                    if a@.subrange(0, oi as int).contains(y) {
                        let k = choose|k: int| 0 <= k < oi && a@.subrange(0, oi as int)[k] == y;
                        assert(a@.subrange(0, i as int)[k] == y);
                    }
                    if b@.subrange(0, oj as int).contains(y) {
                        let k = choose|k: int| 0 <= k < oj && b@.subrange(0, oj as int)[k] == y;
                        assert(b@.subrange(0, j as int)[k] == y);
                    }
                    if y == x {
                        if take_a {
                            assert(a@.subrange(0, i as int)[oi as int] == y);
                        } else {
                            assert(b@.subrange(0, j as int)[oj as int] == y);
                        }
                    }
                }
            }
            assert(out@.to_set() =~= out@.drop_last().to_set() + set![x]) by {
                assert forall|y: usize| #[trigger] out@.to_set().contains(y) <==> (
                out@.drop_last().to_set() + set![x]).contains(y) by {
                    if out@.contains(y) {
                        let k = choose|k: int| 0 <= k < out@.len() && out@[k] == y;
                        if k < out@.len() - 1 {
                            assert(out@.drop_last()[k] == y);
                        }
                    }
                    if out@.drop_last().contains(y) {
                        let k = choose|k: int| 0 <= k < out@.len() - 1 && out@.drop_last()[k] == y;
                        assert(out@[k] == y);
                    }
                    if y == x {
                        assert(out@[out@.len() - 1] == y);
                    }
                }
            }
        }
    }
    proof {
        assert(a@.subrange(0, a@.len() as int) =~= a@);
        assert(b@.subrange(0, b@.len() as int) =~= b@);
    }
    out
}

/// Every offset that either snapshot holds, in increasing order.
pub fn union_keys(a: &BTreeMap<usize, u32>, b: &BTreeMap<usize, u32>) -> (r: Vec<usize>)
    ensures
        strictly_increasing(r@),
        r@.to_set() == a@.dom() + b@.dom(),
{
    let ka = snapshot_keys(a);
    let kb = snapshot_keys(b);
    merge_keys(&ka, &kb)
}

} // verus!
