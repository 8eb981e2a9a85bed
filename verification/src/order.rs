//! Stable ordering by an integer key, as a sort that keeps equal keys in
//! their original order produces.
use vstd::prelude::*;

verus! {

/// `s` (already ordered) with `x` placed after every entry whose key is not
/// greater than `x`'s.
pub open spec fn insert_by<T>(s: Seq<T>, x: T, key: spec_fn(T) -> int) -> Seq<T>
    decreases s.len(),
{
    if s.len() == 0 || key(s.last()) <= key(x) {
        s.push(x)
    } else {
        insert_by(s.drop_last(), x, key).push(s.last())
    }
}

/// `s` stably ordered by `key`: ascending keys, ties in original order.
pub open spec fn sort_by<T>(s: Seq<T>, key: spec_fn(T) -> int) -> Seq<T>
    decreases s.len(),
{
    if s.len() == 0 {
        Seq::empty()
    } else {
        insert_by(sort_by(s.drop_last(), key), s.last(), key)
    }
}

/// The indices `0..n`.
pub open spec fn indices(n: nat) -> Seq<usize> {
    Seq::new(n, |i: int| i as usize)
}

pub open spec fn key_of(keys: Seq<i32>) -> spec_fn(usize) -> int {
    |i: usize| keys[i as int] as int
}

/// Inserting `x` into an ordered `s` puts it at `j` when everything before
/// `j` has a key not above `x`'s and everything from `j` on a greater one.
pub proof fn lemma_insert_by_at<T>(s: Seq<T>, x: T, key: spec_fn(T) -> int, j: int)
    requires
        0 <= j <= s.len(),
        j == 0 || key(s[j - 1]) <= key(x),
        forall|k: int| j <= k < s.len() ==> key(x) < #[trigger] key(s[k]),
    ensures
        insert_by(s, x, key) == s.insert(j, x),
    decreases s.len(),
{
    if s.len() == 0 {
        assert(s.insert(0, x) =~= seq![x]);
    } else if key(s.last()) <= key(x) {
        if j < s.len() {
            assert(key(x) < key(s[s.len() - 1]));
        }
        assert(s.insert(s.len() as int, x) =~= s.push(x));
    } else {
        if j == s.len() {
            assert(key(s[j - 1]) <= key(x));
        }
        let d = s.drop_last();
        assert forall|k: int| j <= k < d.len() implies key(x) < #[trigger] key(d[k]) by {
            assert(d[k] == s[k]);
        }
        if j > 0 {
            assert(d[j - 1] == s[j - 1]);
        }
        lemma_insert_by_at(d, x, key, j);
        assert(d.insert(j, x).push(s.last()) =~= s.insert(j, x));
    }
}

proof fn lemma_insert_by_sorted<T>(s: Seq<T>, x: T, key: spec_fn(T) -> int)
    requires
        forall|i: int, j: int| 0 <= i < j < s.len() ==> key(#[trigger] s[i]) <= key(#[trigger] s[j]),
    ensures
        ({
            let r = insert_by(s, x, key);
            &&& r.len() == s.len() + 1
            &&& forall|i: int, j: int| 0 <= i < j < r.len() ==> key(#[trigger] r[i]) <= key(#[trigger] r[j])
            &&& key(r.last()) == if s.len() > 0 && key(x) < key(s.last()) { key(s.last()) } else { key(x) }
        }),
    decreases s.len(),
{
    if s.len() > 0 && key(x) < key(s.last()) {
        let d = s.drop_last();
        assert forall|i: int, j: int| 0 <= i < j < d.len() implies key(#[trigger] d[i]) <= key(#[trigger] d[j]) by {
            assert(d[i] == s[i] && d[j] == s[j]);
        }
        lemma_insert_by_sorted(d, x, key);
        let q = insert_by(d, x, key);
        let r = q.push(s.last());
        if d.len() > 0 {
            assert(key(d.last()) <= key(s.last())) by {
                assert(d.last() == s[s.len() - 2]);
            }
        }
        assert forall|i: int, j: int| 0 <= i < j < r.len() implies key(#[trigger] r[i]) <= key(#[trigger] r[j]) by {
            if j == r.len() - 1 {
                if i < q.len() - 1 {
                    assert(key(q[i]) <= key(q[q.len() - 1]));
                }
                assert(r[i] == q[i]);
            } else {
                assert(r[i] == q[i] && r[j] == q[j]);
            }
        }
    }
}

/// A stable ordering by `key` is ascending in `key`.
pub proof fn lemma_sort_by_sorted<T>(s: Seq<T>, key: spec_fn(T) -> int)
    ensures
        sort_by(s, key).len() == s.len(),
        forall|i: int, j: int| 0 <= i < j < s.len() ==> key(#[trigger] sort_by(s, key)[i]) <= key(#[trigger] sort_by(s, key)[j]),
    decreases s.len(),
{
    if s.len() > 0 {
        lemma_sort_by_sorted(s.drop_last(), key);
        lemma_insert_by_sorted(sort_by(s.drop_last(), key), s.last(), key);
    }
}

/// A stable ordering only rearranges: the same items, as often each.
pub proof fn lemma_sort_by_multiset<T>(s: Seq<T>, key: spec_fn(T) -> int)
    ensures
        sort_by(s, key).to_multiset() == s.to_multiset(),
    decreases s.len(),
{
    broadcast use vstd::seq_lib::group_to_multiset_ensures;

    if s.len() > 0 {
        lemma_sort_by_multiset(s.drop_last(), key);
        lemma_insert_by_multiset(sort_by(s.drop_last(), key), s.last(), key);
        assert(s.drop_last().push(s.last()) =~= s);
    }
}

proof fn lemma_insert_by_multiset<T>(s: Seq<T>, x: T, key: spec_fn(T) -> int)
    ensures
        insert_by(s, x, key).to_multiset() == s.to_multiset().insert(x),
    decreases s.len(),
{
    broadcast use vstd::seq_lib::group_to_multiset_ensures;
    broadcast use vstd::multiset::group_multiset_axioms;

    if s.len() > 0 && key(x) < key(s.last()) {
        let d = s.drop_last();
        lemma_insert_by_multiset(d, x, key);
        assert(d.push(s.last()) =~= s);
        assert(d.to_multiset().insert(x).insert(s.last()) =~= d.to_multiset().insert(s.last()).insert(x));
    }
}

/// A value with an integer key to order by.
pub trait SortKey {
    spec fn sort_key(&self) -> int;

    fn key(&self) -> (k: i64)
        ensures
            k == self.sort_key(),
    ;
}

pub open spec fn key_fn<T: SortKey>() -> spec_fn(T) -> int {
    |x: T| x.sort_key()
}

/// `v` stably ordered by key: ascending, equal keys in their original order.
pub fn stable_sort<T: SortKey>(v: Vec<T>) -> (r: Vec<T>)
    ensures
        r@ == sort_by(v@, key_fn::<T>()),
{
    let ghost key = key_fn::<T>();
    let ghost all = v@;
    let total: usize = v.len();
    assert(all.len() == total);
    let mut rest = v;
    let mut out: Vec<T> = Vec::new();
    let mut i: usize = 0;
    assert(all.take(0) =~= Seq::<T>::empty());
    assert(all.skip(0) == all);
    while rest.len() > 0
        invariant
            key == key_fn::<T>(),
            i <= all.len(),
            all.len() <= usize::MAX,
            rest@ == all.skip(i as int),
            out@ == sort_by(all.take(i as int), key),
        decreases rest.len(),
    {
        let x = rest.remove(0);
        proof {
            assert(x == all[i as int]);
            assert(all.skip(i as int).remove(0) =~= all.skip(i + 1));
            assert(all.take(i + 1).drop_last() =~= all.take(i as int));
            assert(all.take(i + 1).last() == x);
        }
        let kx = x.key();
        let mut j = out.len();
        while j > 0 && out[j - 1].key() > kx
            invariant
                j <= out@.len(),
                kx == key(x),
                key == key_fn::<T>(),
                forall|k: int| j <= k < out@.len() ==> kx < #[trigger] key(out@[k]),
            decreases j,
        {
            j = j - 1;
        }
        proof {
            lemma_insert_by_at(out@, x, key, j as int);
        }
        out.insert(j, x);
        i = i + 1;
    }
    proof {
        assert(all.take(i as int) =~= all);
    }
    out
}

/// `s` (already ordered by `le`) with `x` placed after every entry that
/// `le` puts at or before `x`.
pub open spec fn insert_by_le<T>(s: Seq<T>, x: T, le: spec_fn(T, T) -> bool) -> Seq<T>
    decreases s.len(),
{
    if s.len() == 0 || le(s.last(), x) {
        s.push(x)
    } else {
        insert_by_le(s.drop_last(), x, le).push(s.last())
    }
}

/// `s` stably ordered by the comparison `le`: ties in original order.
pub open spec fn sort_by_le<T>(s: Seq<T>, le: spec_fn(T, T) -> bool) -> Seq<T>
    decreases s.len(),
{
    if s.len() == 0 {
        Seq::empty()
    } else {
        insert_by_le(sort_by_le(s.drop_last(), le), s.last(), le)
    }
}

pub proof fn lemma_insert_by_le_at<T>(s: Seq<T>, x: T, le: spec_fn(T, T) -> bool, j: int)
    requires
        0 <= j <= s.len(),
        j == 0 || le(s[j - 1], x),
        forall|k: int| j <= k < s.len() ==> !le(#[trigger] s[k], x),
    ensures
        insert_by_le(s, x, le) == s.insert(j, x),
    decreases s.len(),
{
    if s.len() == 0 {
        assert(s.insert(0, x) =~= seq![x]);
    } else if le(s.last(), x) {
        if j < s.len() {
            assert(!le(s[s.len() - 1], x));
        }
        assert(s.insert(s.len() as int, x) =~= s.push(x));
    } else {
        if j == s.len() {
            assert(le(s[j - 1], x));
        }
        let d = s.drop_last();
        assert forall|k: int| j <= k < d.len() implies !le(#[trigger] d[k], x) by {
            assert(d[k] == s[k]);
        }
        if j > 0 {
            assert(d[j - 1] == s[j - 1]);
        }
        lemma_insert_by_le_at(d, x, le, j);
        assert(d.insert(j, x).push(s.last()) =~= s.insert(j, x));
    }
}

/// Ordering by `le` only rearranges: the same items, as often each.
pub proof fn lemma_sort_by_le_multiset<T>(s: Seq<T>, le: spec_fn(T, T) -> bool)
    ensures
        sort_by_le(s, le).to_multiset() == s.to_multiset(),
    decreases s.len(),
{
    broadcast use vstd::seq_lib::group_to_multiset_ensures;

    if s.len() > 0 {
        lemma_sort_by_le_multiset(s.drop_last(), le);
        lemma_insert_by_le_multiset(sort_by_le(s.drop_last(), le), s.last(), le);
        assert(s.drop_last().push(s.last()) =~= s);
    }
}

proof fn lemma_insert_by_le_multiset<T>(s: Seq<T>, x: T, le: spec_fn(T, T) -> bool)
    ensures
        insert_by_le(s, x, le).to_multiset() == s.to_multiset().insert(x),
    decreases s.len(),
{
    broadcast use vstd::seq_lib::group_to_multiset_ensures;
    broadcast use vstd::multiset::group_multiset_axioms;

    if s.len() > 0 && !le(s.last(), x) {
        let d = s.drop_last();
        lemma_insert_by_le_multiset(d, x, le);
        assert(d.push(s.last()) =~= s);
        assert(d.to_multiset().insert(x).insert(s.last()) =~= d.to_multiset().insert(s.last()).insert(x));
    }
}

/// Ordering an already ordered sequence changes nothing.
pub proof fn lemma_sort_by_le_sorted_is_identity<T>(s: Seq<T>, le: spec_fn(T, T) -> bool)
    requires
        forall|i: int, j: int| 0 <= i < j < s.len() ==> le(#[trigger] s[i], #[trigger] s[j]),
    ensures
        sort_by_le(s, le) == s,
    decreases s.len(),
{
    if s.len() > 0 {
        let d = s.drop_last();
        assert forall|i: int, j: int| 0 <= i < j < d.len() implies le(#[trigger] d[i], #[trigger] d[j]) by {
            assert(d[i] == s[i] && d[j] == s[j]);
        }
        lemma_sort_by_le_sorted_is_identity(d, le);
        if d.len() > 0 {
            assert(d.last() == s[s.len() - 2]);
            assert(le(s[s.len() - 2], s[s.len() - 1]));
        }
        assert(d.push(s.last()) =~= s);
    }
}

/// Values compared by a "sorts at or before" relation.
pub trait LeOrder {
    spec fn le_spec(&self, other: &Self) -> bool;

    fn le(&self, other: &Self) -> (r: bool)
        ensures
            r == self.le_spec(other),
    ;
}

pub open spec fn le_fn<T: LeOrder>() -> spec_fn(T, T) -> bool {
    |a: T, b: T| a.le_spec(&b)
}

/// `v` stably ordered by `le`: equal entries in their original order.
pub fn stable_sort_le<T: LeOrder>(v: Vec<T>) -> (r: Vec<T>)
    ensures
        r@ == sort_by_le(v@, le_fn::<T>()),
{
    let ghost le = le_fn::<T>();
    let ghost all = v@;
    let total: usize = v.len();
    let mut rest = v;
    let mut out: Vec<T> = Vec::new();
    let mut i: usize = 0;
    assert(all.take(0) =~= Seq::<T>::empty());
    assert(all.skip(0) == all);
    while rest.len() > 0
        invariant
            le == le_fn::<T>(),
            i <= all.len(),
            all.len() == total,
            rest@ == all.skip(i as int),
            out@ == sort_by_le(all.take(i as int), le),
        decreases rest.len(),
    {
        let x = rest.remove(0);
        proof {
            assert(x == all[i as int]);
            assert(all.skip(i as int).remove(0) =~= all.skip(i + 1));
            assert(all.take(i + 1).drop_last() =~= all.take(i as int));
            assert(all.take(i + 1).last() == x);
        }
        let mut j = out.len();
        while j > 0 && !out[j - 1].le(&x)
            invariant
                j <= out@.len(),
                le == le_fn::<T>(),
                forall|k: int| j <= k < out@.len() ==> !le(#[trigger] out@[k], x),
            decreases j,
        {
            j = j - 1;
        }
        proof {
            lemma_insert_by_le_at(out@, x, le, j as int);
        }
        out.insert(j, x);
        i = i + 1;
    }
    proof {
        assert(all.take(i as int) =~= all);
    }
    out
}

/// The indices of `keys`, stably ordered by key.
pub fn sorted_order(keys: &Vec<i32>) -> (r: Vec<usize>)
    ensures
        r@ == sort_by(indices(keys@.len()), key_of(keys@)),
        forall|k: int| 0 <= k < r@.len() ==> r@[k] < keys@.len(),
        r@.len() == keys@.len(),
{
    let ghost key = key_of(keys@);
    let mut out: Vec<usize> = Vec::new();
    let mut i: usize = 0;
    while i < keys.len()
        invariant
            i <= keys@.len(),
            key == key_of(keys@),
            out@ == sort_by(indices(i as nat), key),
            out@.len() == i,
            forall|k: int| 0 <= k < out@.len() ==> out@[k] < i,
        decreases keys.len() - i,
    {
        proof {
            assert(indices((i + 1) as nat).drop_last() == indices(i as nat));
            assert(indices((i + 1) as nat).last() == i);
        }
        let ghost before = out@;
        let mut j = out.len();
        assert(out@.take(j as int) == out@);
        assert(out@.skip(j as int) =~= Seq::<usize>::empty());
        assert(insert_by(out@, i, key) + Seq::<usize>::empty() == insert_by(out@, i, key));
        while j > 0 && keys[out[j - 1]] > keys[i]
            invariant
                j <= out@.len(),
                out@ == before,
                i < keys@.len(),
                key == key_of(keys@),
                forall|k: int| 0 <= k < out@.len() ==> out@[k] < i,
                insert_by(out@, i, key) == insert_by(out@.take(j as int), i, key) + out@.skip(j as int),
            decreases j,
        {
            proof {
                let t = out@.take(j as int);
                assert(t.drop_last() == out@.take(j - 1));
                assert(t.last() == out@[j - 1]);
                assert(out@.skip(j - 1) == seq![out@[j - 1]] + out@.skip(j as int));
                assert(insert_by(t, i, key) == insert_by(out@.take(j - 1), i, key).push(out@[j - 1]));
                assert(insert_by(out@.take(j - 1), i, key).push(out@[j - 1]) + out@.skip(j as int)
                    == insert_by(out@.take(j - 1), i, key) + out@.skip(j - 1));
            }
            j = j - 1;
        }
        proof {
            let t = out@.take(j as int);
            assert(insert_by(t, i, key) == t.push(i));
            assert(t.push(i) + out@.skip(j as int) == out@.insert(j as int, i));
        }
        out.insert(j, i);
        proof {
            assert forall|k: int| 0 <= k < out@.len() implies out@[k] < i + 1 by {
                if k < j { assert(out@[k] == before[k]); }
                else if k > j { assert(out@[k] == before[k - 1]); }
            }
        }
        i = i + 1;
    }
    out
}

} // verus!
