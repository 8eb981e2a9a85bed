//! Stem gains keyed by stem index, and their listing in index order: a list
//! of `(index, gain)` pairs with strictly increasing indices stands for the
//! map it builds, and each finite map has exactly one such list.
use vstd::prelude::*;
use std::collections::BTreeMap;
use vstd::std_specs::btree::{key_obeys_cmp_spec, increasing_seq};
use vstd::std_specs::iter::IteratorSpec;
use vstd::std_specs::cmp::OrdSpec;

verus! {

/// The map that inserting the pairs of `v` in order builds.
pub open spec fn gains_map<G>(v: Seq<(usize, G)>) -> Map<usize, G>
    decreases v.len(),
{
    if v.len() == 0 {
        Map::empty()
    } else {
        gains_map(v.drop_last()).insert(v.last().0, v.last().1)
    }
}

/// Stem indices strictly increase along `v`.
pub open spec fn strictly_ordered<G>(v: Seq<(usize, G)>) -> bool {
    forall|i: int, j: int| 0 <= i < j < v.len() ==> (#[trigger] v[i]).0 < (#[trigger] v[j]).0
}

/// The entries of `m` listed in increasing index order.
pub open spec fn sorted_gains<G>(m: Map<usize, G>) -> Seq<(usize, G)> {
    choose|v: Seq<(usize, G)>| strictly_ordered(v) && gains_map(v) == m
}

/// Keys of a strictly ordered list are exactly the map's domain, each mapped
/// to its paired value.
proof fn lemma_gains_map_lookup<G>(v: Seq<(usize, G)>)
    requires
        strictly_ordered(v),
    ensures
        forall|k: usize| gains_map(v).dom().contains(k) <==> exists|i: int| 0 <= i < v.len() && (#[trigger] v[i]).0 == k,
        forall|i: int| 0 <= i < v.len() ==> gains_map(v)[(#[trigger] v[i]).0] == v[i].1,
    decreases v.len(),
{
    if v.len() > 0 {
        let init = v.drop_last();
        assert(strictly_ordered(init));
        lemma_gains_map_lookup(init);
        assert forall|k: usize| gains_map(v).dom().contains(k) <==> exists|i: int| 0 <= i < v.len() && (#[trigger] v[i]).0 == k by {
            if gains_map(v).dom().contains(k) && k != v.last().0 {
                assert(gains_map(init).dom().contains(k));
                let i = choose|i: int| 0 <= i < init.len() && (#[trigger] init[i]).0 == k;
                assert(init[i] == v[i]);
                assert(v[i].0 == k);
            }
            if gains_map(v).dom().contains(k) && k == v.last().0 {
                assert(v[v.len() - 1].0 == k);
            }
            if exists|i: int| 0 <= i < v.len() && (#[trigger] v[i]).0 == k {
                let i = choose|i: int| 0 <= i < v.len() && (#[trigger] v[i]).0 == k;
                if i < v.len() - 1 {
                    assert(init[i].0 == k);
                }
            }
        }
        assert forall|i: int| 0 <= i < v.len() implies gains_map(v)[(#[trigger] v[i]).0] == v[i].1 by {
            if i < v.len() - 1 {
                assert(init[i] == v[i]);
                assert(v[i].0 < v[v.len() - 1].0);
            }
        }
    }
}

/// A strictly ordered list is the only one of its kind that builds its map.
proof fn lemma_gains_list_unique<G>(a: Seq<(usize, G)>, b: Seq<(usize, G)>)
    requires
        strictly_ordered(a),
        strictly_ordered(b),
        gains_map(a) == gains_map(b),
    ensures
        a == b,
    decreases a.len() + b.len(),
{
    lemma_gains_map_lookup(a);
    lemma_gains_map_lookup(b);
    if a.len() == 0 || b.len() == 0 {
        if b.len() > 0 {
            assert(gains_map(b).dom().contains(b[0].0));
        }
        if a.len() > 0 {
            assert(gains_map(a).dom().contains(a[0].0));
        }
        assert(a =~= b);
    } else {
        let la = a.last();
        let lb = b.last();
        assert(a[a.len() - 1] == la && b[b.len() - 1] == lb);
        assert(gains_map(b).dom().contains(la.0));
        let j = choose|j: int| 0 <= j < b.len() && (#[trigger] b[j]).0 == la.0;
        if j < b.len() - 1 {
            assert(b[j].0 < b[b.len() - 1].0);
        }
        assert(gains_map(a).dom().contains(lb.0));
        let i = choose|i: int| 0 <= i < a.len() && (#[trigger] a[i]).0 == lb.0;
        if i < a.len() - 1 {
            assert(a[i].0 < a[a.len() - 1].0);
        }
        assert(la.0 == lb.0);
        assert(la.1 == gains_map(a)[la.0]);
        assert(lb.1 == gains_map(b)[lb.0]);
        let da = a.drop_last();
        let db = b.drop_last();
        assert(strictly_ordered(da));
        assert(strictly_ordered(db));
        lemma_gains_map_lookup(da);
        lemma_gains_map_lookup(db);
        assert(!gains_map(da).dom().contains(la.0)) by {
            if gains_map(da).dom().contains(la.0) {
                let w = choose|w: int| 0 <= w < da.len() && (#[trigger] da[w]).0 == la.0;
                assert(a[w].0 < a[a.len() - 1].0);
            }
        }
        assert(!gains_map(db).dom().contains(lb.0)) by {
            if gains_map(db).dom().contains(lb.0) {
                let w = choose|w: int| 0 <= w < db.len() && (#[trigger] db[w]).0 == lb.0;
                assert(b[w].0 < b[b.len() - 1].0);
            }
        }
        assert(gains_map(da) =~= gains_map(a).remove(la.0));
        assert(gains_map(db) =~= gains_map(b).remove(lb.0));
        lemma_gains_list_unique(da, db);
        assert(a =~= da.push(la));
        assert(b =~= db.push(lb));
    }
}

/// Two strictly ordered lists with the same pairs-by-key build the same map.
proof fn lemma_gains_map_ext<G>(a: Seq<(usize, G)>, b: Seq<(usize, G)>, m: Map<usize, G>)
    requires
        strictly_ordered(a),
        forall|k: usize| m.dom().contains(k) <==> exists|i: int| 0 <= i < a.len() && (#[trigger] a[i]).0 == k,
        forall|i: int| 0 <= i < a.len() ==> m[(#[trigger] a[i]).0] == a[i].1,
        b == a,
    ensures
        gains_map(a) == m,
{
    lemma_gains_map_lookup(a);
    assert forall|k: usize| #[trigger] m.dom().contains(k) implies gains_map(a)[k] == m[k] by {
        let i = choose|i: int| 0 <= i < a.len() && (#[trigger] a[i]).0 == k;
    }
    assert(gains_map(a) =~= m);
}

/// A strictly ordered list whose keys are exactly `m`'s domain, each paired
/// with its value in `m`, builds `m`.
proof fn lemma_gains_map_from_pairs<G>(a: Seq<(usize, G)>, m: Map<usize, G>)
    requires
        strictly_ordered(a),
        forall|k: usize| m.dom().contains(k) ==> exists|i: int| 0 <= i < a.len() && (#[trigger] a[i]).0 == k,
        forall|i: int| 0 <= i < a.len() ==> m.dom().contains((#[trigger] a[i]).0) && m[a[i].0] == a[i].1,
    ensures
        gains_map(a) == m,
{
    assert forall|k: usize| m.dom().contains(k) <==> exists|i: int| 0 <= i < a.len() && (#[trigger] a[i]).0 == k by {
        if exists|i: int| 0 <= i < a.len() && (#[trigger] a[i]).0 == k {
            let i = choose|i: int| 0 <= i < a.len() && (#[trigger] a[i]).0 == k;
            assert(m.dom().contains(a[i].0));
        }
    }
    lemma_gains_map_ext(a, a, m);
}

/// A finite nonempty set of indices has a greatest element.
proof fn lemma_greatest_index(s: Set<usize>) -> (k: usize)
    requires
        s.finite(),
        s.len() > 0,
    ensures
        s.contains(k),
        forall|j: usize| s.contains(j) ==> j <= k,
    decreases s.len(),
{
    let x = s.choose();
    let rest = s.remove(x);
    if rest.len() == 0 {
        assert forall|j: usize| s.contains(j) implies j <= x by {
            if j != x {
                assert(rest.contains(j));
            }
        }
        x
    } else {
        let y = lemma_greatest_index(rest);
        if x < y { y } else { x }
    }
}

/// Every finite map of gains is built by some strictly ordered list.
proof fn lemma_ordered_list_exists<G>(m: Map<usize, G>)
    requires
        m.dom().finite(),
    ensures
        exists|v: Seq<(usize, G)>| strictly_ordered(v) && gains_map(v) == m,
    decreases m.dom().len(),
{
    if m.dom().len() == 0 {
        let v = Seq::<(usize, G)>::empty();
        assert(m =~= Map::<usize, G>::empty()) by {
            assert forall|k: usize| !m.dom().contains(k) by {
                if m.dom().contains(k) {
                    assert(m.dom().remove(k).len() < m.dom().len());
                }
            }
        }
        assert(strictly_ordered(v) && gains_map(v) == m);
    } else {
        let k = lemma_greatest_index(m.dom());
        let rest = m.remove(k);
        assert(rest.dom() =~= m.dom().remove(k));
        lemma_ordered_list_exists(rest);
        let w = choose|w: Seq<(usize, G)>| strictly_ordered(w) && gains_map(w) == rest;
        lemma_gains_map_lookup(w);
        let v = w.push((k, m[k]));
        assert(strictly_ordered(v)) by {
            assert forall|p: int, q: int| 0 <= p < q < v.len() implies (#[trigger] v[p]).0 < (#[trigger] v[q]).0 by {
                if q == v.len() - 1 {
                    assert(v[p] == w[p]);
                    assert(rest.dom().contains(w[p].0));
                } else {
                    assert(v[p] == w[p] && v[q] == w[q]);
                }
            }
        }
        assert(v.drop_last() == w);
        assert(gains_map(v) =~= m);
    }
}

/// The index-ordered listing of a finite map is strictly ordered and builds
/// the map; it is the only list that does both.
pub proof fn lemma_sorted_gains<G>(m: Map<usize, G>)
    requires
        m.dom().finite(),
    ensures
        strictly_ordered(sorted_gains(m)),
        gains_map(sorted_gains(m)) == m,
        forall|v: Seq<(usize, G)>| strictly_ordered(v) && gains_map(v) == m ==> v == sorted_gains(m),
{
    lemma_ordered_list_exists(m);
    assert forall|v: Seq<(usize, G)>| strictly_ordered(v) && gains_map(v) == m implies v == sorted_gains(m) by {
        lemma_gains_list_unique(v, sorted_gains(m));
    }
}

/// Record `gain` for stem `idx`, replacing any earlier gain for it.
pub fn set_gain<G>(m: &mut BTreeMap<usize, G>, idx: usize, gain: G)
    ensures
        final(m)@ == old(m)@.insert(idx, gain),
{
    broadcast use vstd::laws_cmp::group_laws_cmp;
    m.insert(idx, gain);
}

/// The entries of `m` in increasing index order.
pub fn ordered_entries<G: Copy>(m: &BTreeMap<usize, G>) -> (v: Vec<(usize, G)>)
    ensures
        v@ == sorted_gains(m@),
{
    broadcast use vstd::laws_cmp::group_laws_cmp;
    let iter = m.iter();
    assert(key_obeys_cmp_spec::<usize>());
    let ghost r = iter.remaining();
    let ghost ks = r.map_values(|kv: (&usize, &G)| *kv.0);
    assert(increasing_seq(ks));
    let mut v: Vec<(usize, G)> = Vec::new();
    for e in it: iter
        invariant
            it.seq() == r,
            v@.len() == it.index(),
            forall|i: int| 0 <= i < v@.len() ==> #[trigger] v@[i] == (*r[i].0, *r[i].1),
    {
        v.push((*e.0, *e.1));
    }
    proof {
        assert(v@.len() == r.len());
        assert forall|i: int, j: int| 0 <= i < j < v@.len() implies (#[trigger] v@[i]).0 < (#[trigger] v@[j]).0 by {
            assert(ks[i] == v@[i].0);
            assert(ks[j] == v@[j].0);
            assert(ks[i].cmp_spec(&ks[j]) is Less);
        }
        assert forall|k: usize| m@.dom().contains(k) implies exists|i: int| 0 <= i < v@.len() && (#[trigger] v@[i]).0 == k by {
            assert(r.contains((&k, &m@[k])));
            let i = choose|i: int| 0 <= i < r.len() && r[i] == (&k, &m@[k]);
            assert(v@[i].0 == k);
        }
        assert forall|i: int| 0 <= i < v@.len() implies m@.dom().contains((#[trigger] v@[i]).0) && m@[v@[i].0] == v@[i].1 by {
            assert(m@.contains_key(*r[i].0));
        }
        lemma_gains_map_from_pairs(v@, m@);
        lemma_sorted_gains(m@);
    }
    v
}

} // verus!
