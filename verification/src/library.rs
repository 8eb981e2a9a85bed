//! The per-song collections a bundle manifest holds, and how the library
//! changes them: markers and isolation snapshots kept in slot order, sections
//! in position order, loops and routines found by id, section notes in label
//! order. Reading and writing the manifests, and drawing random ids, happen
//! around these functions; what they return is what gets written through.
use vstd::prelude::*;
use std::collections::HashSet;
use crate::model::{IsolationSnapshot, LoopId, LoopKind, LoopRegion, Marker, Routine, RoutineId, Section,
    SectionId, Song, SongId};
use crate::model::SectionNote;
use crate::notes::{block_is_blank, NotesDoc};
use crate::order::{insert_by_le, key_fn, le_fn, lemma_sort_by_le_multiset, lemma_sort_by_le_sorted_is_identity, sort_by,
    sort_by_le, stable_sort, stable_sort_le, LeOrder, SortKey};
use crate::text::{chars_le, lemma_chars_le_antisymmetric, lemma_chars_le_total, lemma_chars_le_transitive, str_eq, str_le};

verus! {

impl<T> SortKey for Marker<T> {
    open spec fn sort_key(&self) -> int {
        self.slot as int
    }

    fn key(&self) -> (k: i64) {
        self.slot as i64
    }
}

impl SortKey for IsolationSnapshot {
    open spec fn sort_key(&self) -> int {
        self.slot as int
    }

    fn key(&self) -> (k: i64) {
        self.slot as i64
    }
}

impl<T> SortKey for Section<T> {
    open spec fn sort_key(&self) -> int {
        self.position as int
    }

    fn key(&self) -> (k: i64) {
        self.position as i64
    }
}

impl<T> SortKey for Song<T> {
    open spec fn sort_key(&self) -> int {
        self.id.0 as int
    }

    fn key(&self) -> (k: i64) {
        self.id.0
    }
}

/// `i` is the first index of `s` whose item has key `k`.
pub open spec fn first_key_at<T: SortKey>(s: Seq<T>, k: int, i: int) -> bool {
    &&& 0 <= i < s.len()
    &&& s[i].sort_key() == k
    &&& forall|j: int| 0 <= j < i ==> (#[trigger] s[j]).sort_key() != k
}

/// Some item of `s` has key `k`.
pub open spec fn holds_key<T: SortKey>(s: Seq<T>, k: int) -> bool {
    exists|i: int| 0 <= i < s.len() && (#[trigger] s[i]).sort_key() == k
}

/// When some item has key `k`, a first such item exists, so the clauses
/// stated for "the first index with key `k`" apply.
pub proof fn lemma_first_key_exists<T: SortKey>(s: Seq<T>, k: int)
    requires
        holds_key(s, k),
    ensures
        exists|i: int| first_key_at(s, k, i),
    decreases s.len(),
{
    let init = s.drop_last();
    if holds_key(init, k) {
        lemma_first_key_exists(init, k);
        let i = choose|i: int| first_key_at(init, k, i);
        assert forall|j: int| 0 <= j < i implies (#[trigger] s[j]).sort_key() != k by {
            assert(s[j] == init[j]);
        }
        assert(first_key_at(s, k, i));
    } else {
        let w = choose|w: int| 0 <= w < s.len() && (#[trigger] s[w]).sort_key() == k;
        if w < s.len() - 1 {
            assert(init[w] == s[w]);
        }
        assert forall|j: int| 0 <= j < s.len() - 1 implies (#[trigger] s[j]).sort_key() != k by {
            assert(s[j] == init[j]);
        }
        assert(first_key_at(s, k, s.len() - 1));
    }
}

/// `s` without the items whose key is `k`, the rest in order.
pub open spec fn without_key<T: SortKey>(s: Seq<T>, k: int) -> Seq<T> {
    s.filter(key_is_not::<T>(k))
}

pub open spec fn key_is_not<T: SortKey>(k: int) -> spec_fn(T) -> bool {
    |x: T| x.sort_key() != k
}

/// Keys strictly increase along `s`, so each key names at most one item.
pub open spec fn strictly_keyed<T: SortKey>(s: Seq<T>) -> bool {
    forall|i: int, j: int| 0 <= i < j < s.len() ==> (#[trigger] s[i]).sort_key() < (#[trigger] s[j]).sort_key()
}

/// The item under each key of `s`.
pub open spec fn key_map<T: SortKey>(s: Seq<T>) -> Map<int, T> {
    Map::new(|k: int| holds_key(s, k), |k: int| s[choose|i: int| 0 <= i < s.len() && (#[trigger] s[i]).sort_key() == k])
}

/// In a strictly keyed sequence, the item at any index with key `k` is the
/// first such item and the one `key_map` gives for `k`.
pub proof fn lemma_key_map_lookup<T: SortKey>(s: Seq<T>, k: int, i: int)
    requires
        strictly_keyed(s),
        0 <= i < s.len(),
        s[i].sort_key() == k,
    ensures
        first_key_at(s, k, i),
        key_map(s).contains_key(k),
        key_map(s)[k] == s[i],
{
    assert forall|j: int| 0 <= j < i implies (#[trigger] s[j]).sort_key() != k by {
        assert(s[j].sort_key() < s[i].sort_key());
    }
    let c = choose|c: int| 0 <= c < s.len() && (#[trigger] s[c]).sort_key() == k;
    if c < i {
        assert(s[c].sort_key() < s[i].sort_key());
    } else if c > i {
        assert(s[i].sort_key() < s[c].sort_key());
    }
}

proof fn lemma_sort_by_sorted_is_identity<T: SortKey>(s: Seq<T>)
    requires
        forall|i: int, j: int| 0 <= i < j < s.len() ==> (#[trigger] s[i]).sort_key() <= (#[trigger] s[j]).sort_key(),
    ensures
        sort_by(s, key_fn::<T>()) == s,
    decreases s.len(),
{
    if s.len() > 0 {
        let d = s.drop_last();
        assert forall|i: int, j: int| 0 <= i < j < d.len() implies (#[trigger] d[i]).sort_key() <= (#[trigger] d[j]).sort_key() by {
            assert(d[i] == s[i] && d[j] == s[j]);
        }
        lemma_sort_by_sorted_is_identity(d);
        if d.len() > 0 {
            assert(d.last() == s[s.len() - 2]);
        }
        assert(d.push(s.last()) =~= s);
    }
}

/// Inserting a new key into a strictly keyed sequence puts it between the
/// smaller and the greater keys.
proof fn lemma_insert_new_key<T: SortKey>(s: Seq<T>, x: T) -> (j: int)
    requires
        strictly_keyed(s),
        !holds_key(s, x.sort_key()),
    ensures
        0 <= j <= s.len(),
        crate::order::insert_by(s, x, key_fn::<T>()) == s.insert(j, x),
        forall|i: int| 0 <= i < j ==> (#[trigger] s[i]).sort_key() < x.sort_key(),
        forall|i: int| j <= i < s.len() ==> x.sort_key() < (#[trigger] s[i]).sort_key(),
    decreases s.len(),
{
    let key = key_fn::<T>();
    if s.len() == 0 {
        assert(s.insert(0, x) =~= seq![x]);
        0
    } else if key(s.last()) <= key(x) {
        assert(s[s.len() - 1].sort_key() != x.sort_key());
        assert forall|i: int| 0 <= i < s.len() implies (#[trigger] s[i]).sort_key() < x.sort_key() by {
            if i < s.len() - 1 {
                assert(s[i].sort_key() < s[s.len() - 1].sort_key());
            }
        }
        assert(s.insert(s.len() as int, x) =~= s.push(x));
        s.len() as int
    } else {
        let d = s.drop_last();
        assert forall|a: int, b: int| 0 <= a < b < d.len() implies (#[trigger] d[a]).sort_key() < (#[trigger] d[b]).sort_key() by {
            assert(d[a] == s[a] && d[b] == s[b]);
        }
        assert(!holds_key(d, x.sort_key())) by {
            if holds_key(d, x.sort_key()) {
                let w = choose|w: int| 0 <= w < d.len() && (#[trigger] d[w]).sort_key() == x.sort_key();
                assert(s[w] == d[w]);
            }
        }
        let j = lemma_insert_new_key(d, x);
        assert(d.insert(j, x).push(s.last()) =~= s.insert(j, x));
        assert forall|i: int| 0 <= i < j implies (#[trigger] s[i]).sort_key() < x.sort_key() by {
            assert(s[i] == d[i]);
        }
        assert forall|i: int| j <= i < s.len() implies x.sort_key() < (#[trigger] s[i]).sort_key() by {
            if i < s.len() - 1 {
                assert(s[i] == d[i]);
            }
        }
        j
    }
}

/// Setting an item in a slot-ordered list (as `set_marker` and
/// `save_snapshot` do) keeps it ordered with one item per slot; the slot then
/// holds the new item and every other slot what it held before.
pub proof fn lemma_put_keyed_law<T: SortKey>(old: Seq<T>, x: T, new: Seq<T>)
    requires
        strictly_keyed(old),
        forall|i: int| first_key_at(old, x.sort_key(), i) ==> new == old.update(i, x),
        !holds_key(old, x.sort_key()) ==> new == sort_by(old.push(x), key_fn::<T>()),
    ensures
        strictly_keyed(new),
        key_map(new) == key_map(old).insert(x.sort_key(), x),
{
    let kx = x.sort_key();
    if holds_key(old, kx) {
        let i = choose|i: int| 0 <= i < old.len() && (#[trigger] old[i]).sort_key() == kx;
        lemma_key_map_lookup(old, kx, i);
        assert(new == old.update(i, x));
        assert forall|a: int, b: int| 0 <= a < b < new.len() implies (#[trigger] new[a]).sort_key() < (#[trigger] new[b]).sort_key() by {
            assert(new[a].sort_key() == old[a].sort_key());
            assert(new[b].sort_key() == old[b].sort_key());
        }
        assert forall|k: int| #[trigger] key_map(new).contains_key(k) <==> key_map(old).insert(kx, x).contains_key(k) by {
            if holds_key(new, k) {
                let w = choose|w: int| 0 <= w < new.len() && (#[trigger] new[w]).sort_key() == k;
                assert(old[w].sort_key() == k);
            }
            if holds_key(old, k) {
                let w = choose|w: int| 0 <= w < old.len() && (#[trigger] old[w]).sort_key() == k;
                assert(new[w].sort_key() == k);
            }
            if k == kx {
                assert(new[i].sort_key() == k);
            }
        }
        assert forall|k: int| #[trigger] key_map(new).contains_key(k) implies key_map(new)[k] == key_map(old).insert(kx, x)[k] by {
            let w = choose|w: int| 0 <= w < new.len() && (#[trigger] new[w]).sort_key() == k;
            lemma_key_map_lookup(new, k, w);
            if k != kx {
                assert(old[w].sort_key() == k);
                lemma_key_map_lookup(old, k, w);
            } else {
                lemma_key_map_lookup(new, k, i);
            }
        }
        assert(key_map(new) =~= key_map(old).insert(kx, x));
    } else {
        let key = key_fn::<T>();
        lemma_sort_by_sorted_is_identity(old);
        assert(old.push(x).drop_last() =~= old);
        assert(sort_by(old.push(x), key) == crate::order::insert_by(sort_by(old, key), x, key));
        let j = lemma_insert_new_key(old, x);
        assert(new == old.insert(j, x));
        assert forall|a: int, b: int| 0 <= a < b < new.len() implies (#[trigger] new[a]).sort_key() < (#[trigger] new[b]).sort_key() by {
            if b < j {
                assert(new[a] == old[a] && new[b] == old[b]);
            } else if b == j {
                assert(new[a] == old[a]);
            } else if a < j {
                assert(new[a] == old[a] && new[b] == old[b - 1]);
            } else if a == j {
                assert(new[b] == old[b - 1]);
            } else {
                assert(new[a] == old[a - 1] && new[b] == old[b - 1]);
            }
        }
        assert(new[j] == x);
        assert forall|k: int| #[trigger] key_map(new).contains_key(k) <==> key_map(old).insert(kx, x).contains_key(k) by {
            if holds_key(new, k) {
                let w = choose|w: int| 0 <= w < new.len() && (#[trigger] new[w]).sort_key() == k;
                if w < j {
                    assert(old[w] == new[w]);
                } else if w > j {
                    assert(old[w - 1] == new[w]);
                }
            }
            if holds_key(old, k) {
                let w = choose|w: int| 0 <= w < old.len() && (#[trigger] old[w]).sort_key() == k;
                if w < j {
                    assert(new[w] == old[w]);
                } else {
                    assert(new[w + 1] == old[w]);
                }
            }
        }
        assert forall|k: int| #[trigger] key_map(new).contains_key(k) implies key_map(new)[k] == key_map(old).insert(kx, x)[k] by {
            let w = choose|w: int| 0 <= w < new.len() && (#[trigger] new[w]).sort_key() == k;
            lemma_key_map_lookup(new, k, w);
            if w < j {
                assert(old[w] == new[w]);
                lemma_key_map_lookup(old, k, w);
            } else if w > j {
                assert(old[w - 1] == new[w]);
                lemma_key_map_lookup(old, k, w - 1);
            }
        }
        assert(key_map(new) =~= key_map(old).insert(kx, x));
    }
}

proof fn lemma_without_key_strict<T: SortKey>(s: Seq<T>, k: int) -> (i: int)
    requires
        strictly_keyed(s),
    ensures
        holds_key(s, k) ==> 0 <= i < s.len() && s[i].sort_key() == k && without_key(s, k) == s.remove(i),
        !holds_key(s, k) ==> without_key(s, k) == s,
    decreases s.len(),
{
    reveal(Seq::filter);
    if s.len() == 0 {
        0
    } else {
        let d = s.drop_last();
        assert forall|a: int, b: int| 0 <= a < b < d.len() implies (#[trigger] d[a]).sort_key() < (#[trigger] d[b]).sort_key() by {
            assert(d[a] == s[a] && d[b] == s[b]);
        }
        let i = lemma_without_key_strict(d, k);
        assert(without_key(s, k) == if key_is_not::<T>(k)(s.last()) { without_key(d, k).push(s.last()) } else { without_key(d, k) });
        if s.last().sort_key() == k {
            assert(!holds_key(d, k)) by {
                if holds_key(d, k) {
                    let w = choose|w: int| 0 <= w < d.len() && (#[trigger] d[w]).sort_key() == k;
                    assert(s[w] == d[w]);
                    assert(s[w].sort_key() < s[s.len() - 1].sort_key());
                }
            }
            assert(s.remove(s.len() - 1) =~= d);
            s.len() - 1
        } else if holds_key(d, k) {
            assert(s[i] == d[i]);
            assert(d.remove(i).push(s.last()) =~= s.remove(i));
            i
        } else {
            assert(d.push(s.last()) =~= s);
            assert(!holds_key(s, k)) by {
                if holds_key(s, k) {
                    let w = choose|w: int| 0 <= w < s.len() && (#[trigger] s[w]).sort_key() == k;
                    assert(d[w] == s[w]);
                }
            }
            0
        }
    }
}

/// Clearing a slot of a slot-ordered list (as `clear_marker` and
/// `clear_snapshot` do) keeps it ordered; the slot is then empty and every
/// other slot holds what it held before.
pub proof fn lemma_drop_key_law<T: SortKey>(old: Seq<T>, k: int)
    requires
        strictly_keyed(old),
    ensures
        strictly_keyed(without_key(old, k)),
        key_map(without_key(old, k)) == key_map(old).remove(k),
{
    let i = lemma_without_key_strict(old, k);
    let new = without_key(old, k);
    if holds_key(old, k) {
        assert forall|a: int, b: int| 0 <= a < b < new.len() implies (#[trigger] new[a]).sort_key() < (#[trigger] new[b]).sort_key() by {
            if b < i {
                assert(new[a] == old[a] && new[b] == old[b]);
            } else if a < i {
                assert(new[a] == old[a] && new[b] == old[b + 1]);
            } else {
                assert(new[a] == old[a + 1] && new[b] == old[b + 1]);
            }
        }
        assert forall|q: int| #[trigger] key_map(new).contains_key(q) <==> key_map(old).remove(k).contains_key(q) by {
            if holds_key(new, q) {
                let w = choose|w: int| 0 <= w < new.len() && (#[trigger] new[w]).sort_key() == q;
                if w < i {
                    assert(old[w] == new[w]);
                    assert(old[w].sort_key() < old[i].sort_key());
                } else {
                    assert(old[w + 1] == new[w]);
                    assert(old[i].sort_key() < old[w + 1].sort_key());
                }
            }
            if holds_key(old, q) && q != k {
                let w = choose|w: int| 0 <= w < old.len() && (#[trigger] old[w]).sort_key() == q;
                if w < i {
                    assert(new[w] == old[w]);
                } else {
                    assert(w != i);
                    assert(new[w - 1] == old[w]);
                }
            }
        }
        assert forall|q: int| #[trigger] key_map(new).contains_key(q) implies key_map(new)[q] == key_map(old).remove(k)[q] by {
            let w = choose|w: int| 0 <= w < new.len() && (#[trigger] new[w]).sort_key() == q;
            lemma_key_map_lookup(new, q, w);
            if w < i {
                assert(old[w] == new[w]);
                lemma_key_map_lookup(old, q, w);
            } else {
                assert(old[w + 1] == new[w]);
                lemma_key_map_lookup(old, q, w + 1);
            }
        }
        assert(key_map(new) =~= key_map(old).remove(k));
    } else {
        assert(key_map(old).remove(k) =~= key_map(old));
    }
}

/// Clearing a slot that was just set, where it had been empty, gives back
/// every slot as it was.
pub proof fn lemma_set_then_clear_restores<T: SortKey>(old: Seq<T>, x: T, new: Seq<T>)
    requires
        strictly_keyed(old),
        !holds_key(old, x.sort_key()),
        new == sort_by(old.push(x), key_fn::<T>()),
    ensures
        key_map(without_key(new, x.sort_key())) == key_map(old),
{
    lemma_put_keyed_law(old, x, new);
    lemma_drop_key_law(new, x.sort_key());
    assert(!key_map(old).contains_key(x.sort_key()));
    assert(key_map(old).insert(x.sort_key(), x).remove(x.sort_key()) =~= key_map(old));
}

/// The first index whose item has key `k`.
fn find_key<T: SortKey>(items: &[T], k: i64) -> (r: Option<usize>)
    ensures
        match r {
            Some(i) => first_key_at(items@, k as int, i as int),
            None => !holds_key(items@, k as int),
        },
{
    let mut i: usize = 0;
    while i < items.len()
        invariant
            i <= items@.len(),
            forall|j: int| 0 <= j < i ==> (#[trigger] items@[j]).sort_key() != k,
        decreases items.len() - i,
    {
        if items[i].key() == k {
            return Some(i);
        }
        i = i + 1;
    }
    None
}

/// Replace the first item with `x`'s key by `x`; with no such item, add `x`
/// and reorder stably by key.
fn put_keyed<T: SortKey>(items: &mut Vec<T>, x: T)
    ensures
        forall|i: int| first_key_at(old(items)@, x.sort_key(), i) ==> final(items)@ == old(items)@.update(i, x),
        !holds_key(old(items)@, x.sort_key()) ==> final(items)@ == sort_by(old(items)@.push(x), key_fn::<T>()),
{
    let k = x.key();
    match find_key(items.as_slice(), k) {
        Some(i) => {
            proof {
                assert forall|j: int| first_key_at(old(items)@, x.sort_key(), j) implies j == i by {
                    if j < i {
                        assert(old(items)@[j].sort_key() == k);
                    } else if j > i {
                        assert(old(items)@[i as int].sort_key() == k);
                    }
                }
            }
            items.set(i, x);
        },
        None => {
            items.push(x);
            let mut all: Vec<T> = Vec::new();
            core::mem::swap(&mut all, items);
            let sorted = stable_sort(all);
            *items = sorted;
        },
    }
}

/// Remove every item whose key is `k`, keeping the others in order.
fn drop_key<T: SortKey>(items: &mut Vec<T>, k: i64)
    ensures
        final(items)@ == without_key(old(items)@, k as int),
{
    let ghost all = items@;
    let ghost keep = key_is_not::<T>(k as int);
    let mut rest: Vec<T> = Vec::new();
    core::mem::swap(&mut rest, items);
    let total: usize = rest.len();
    let mut i: usize = 0;
    proof {
        reveal(Seq::filter);
        assert(all.take(0) =~= Seq::<T>::empty());
        assert(all.skip(0) == all);
    }
    while rest.len() > 0
        invariant
            i <= all.len(),
            all.len() == total,
            keep == key_is_not::<T>(k as int),
            rest@ == all.skip(i as int),
            items@ == all.take(i as int).filter(keep),
        decreases rest.len(),
    {
        let x = rest.remove(0);
        proof {
            reveal(Seq::filter);
            assert(x == all[i as int]);
            assert(all.skip(i as int).remove(0) =~= all.skip(i + 1));
            assert(all.take(i + 1).drop_last() =~= all.take(i as int));
            assert(all.take(i + 1).last() == x);
        }
        if x.key() != k {
            items.push(x);
        }
        i = i + 1;
    }
    proof {
        assert(all.take(i as int) =~= all);
    }
}

/// The marker in `slot`, if any.
pub fn marker<T: Copy>(markers: &[Marker<T>], slot: u32) -> (r: Option<Marker<T>>)
    ensures
        r is Some <==> holds_key(markers@, slot as int),
        forall|i: int| first_key_at(markers@, slot as int, i) ==> r == Some(markers@[i]),
{
    match find_key(markers, slot as i64) {
        Some(i) => Some(markers[i]),
        None => None,
    }
}

/// Set (or overwrite) the marker in `slot`; the list stays ordered by slot.
pub fn set_marker<T: Copy>(markers: &mut Vec<Marker<T>>, slot: u32, pos: T) -> (m: Marker<T>)
    ensures
        m == (Marker { slot, pos }),
        forall|i: int| first_key_at(old(markers)@, slot as int, i) ==> final(markers)@ == old(markers)@.update(i, m),
        !holds_key(old(markers)@, slot as int) ==> final(markers)@ == sort_by(old(markers)@.push(m), key_fn::<Marker<T>>()),
{
    let m = Marker { slot, pos };
    put_keyed(markers, m);
    m
}

/// Remove the marker in `slot`.
pub fn clear_marker<T>(markers: &mut Vec<Marker<T>>, slot: u32)
    ensures
        final(markers)@ == without_key(old(markers)@, slot as int),
{
    drop_key(markers, slot as i64);
}

/// The isolation snapshot in `slot`, if any.
pub fn snapshot(snapshots: &[IsolationSnapshot], slot: u32) -> (r: Option<&IsolationSnapshot>)
    ensures
        r is Some <==> holds_key(snapshots@, slot as int),
        forall|i: int| first_key_at(snapshots@, slot as int, i) ==> r == Some(&snapshots@[i]),
{
    match find_key(snapshots, slot as i64) {
        Some(i) => Some(&snapshots[i]),
        None => None,
    }
}

/// Save (or overwrite) `snap` in its slot; the list stays ordered by slot.
pub fn save_snapshot(snapshots: &mut Vec<IsolationSnapshot>, snap: IsolationSnapshot)
    ensures
        forall|i: int| first_key_at(old(snapshots)@, snap.slot as int, i) ==> final(snapshots)@ == old(snapshots)@.update(i, snap),
        !holds_key(old(snapshots)@, snap.slot as int)
            ==> final(snapshots)@ == sort_by(old(snapshots)@.push(snap), key_fn::<IsolationSnapshot>()),
{
    put_keyed(snapshots, snap);
}

/// Remove the snapshot in `slot`.
pub fn clear_snapshot(snapshots: &mut Vec<IsolationSnapshot>, slot: u32)
    ensures
        final(snapshots)@ == without_key(old(snapshots)@, slot as int),
{
    drop_key(snapshots, slot as i64);
}

/// Why a library change was refused.
#[derive(Debug, Clone, Copy, PartialEq, Eq, Structural)]
pub enum LibraryError {
    /// No song, loop or routine has the given id.
    NotFound,
}

/// A value found by its integer id.
pub trait Identified {
    spec fn ident(&self) -> int;

    fn ident_value(&self) -> (r: i64)
        ensures
            r == self.ident(),
    ;
}

impl<T> Identified for Section<T> {
    open spec fn ident(&self) -> int {
        self.id.0 as int
    }

    fn ident_value(&self) -> (r: i64) {
        self.id.0
    }
}

impl<T> Identified for LoopRegion<T> {
    open spec fn ident(&self) -> int {
        self.id.0 as int
    }

    fn ident_value(&self) -> (r: i64) {
        self.id.0
    }
}

impl<B> Identified for Routine<B> {
    open spec fn ident(&self) -> int {
        self.id.0 as int
    }

    fn ident_value(&self) -> (r: i64) {
        self.id.0
    }
}

/// `i` is the first index of `s` whose item has id `id`.
pub open spec fn first_id_at<T: Identified>(s: Seq<T>, id: int, i: int) -> bool {
    &&& 0 <= i < s.len()
    &&& s[i].ident() == id
    &&& forall|j: int| 0 <= j < i ==> (#[trigger] s[j]).ident() != id
}

/// Some item of `s` has id `id`.
pub open spec fn holds_id<T: Identified>(s: Seq<T>, id: int) -> bool {
    exists|i: int| 0 <= i < s.len() && (#[trigger] s[i]).ident() == id
}

/// When some item has id `id`, a first such item exists, so the clauses
/// stated for "the first index with id `id`" apply.
pub proof fn lemma_first_id_exists<T: Identified>(s: Seq<T>, id: int)
    requires
        holds_id(s, id),
    ensures
        exists|i: int| first_id_at(s, id, i),
    decreases s.len(),
{
    let init = s.drop_last();
    if holds_id(init, id) {
        lemma_first_id_exists(init, id);
        let i = choose|i: int| first_id_at(init, id, i);
        assert forall|j: int| 0 <= j < i implies (#[trigger] s[j]).ident() != id by {
            assert(s[j] == init[j]);
        }
        assert(first_id_at(s, id, i));
    } else {
        let w = choose|w: int| 0 <= w < s.len() && (#[trigger] s[w]).ident() == id;
        if w < s.len() - 1 {
            assert(init[w] == s[w]);
        }
        assert forall|j: int| 0 <= j < s.len() - 1 implies (#[trigger] s[j]).ident() != id by {
            assert(s[j] == init[j]);
        }
        assert(first_id_at(s, id, s.len() - 1));
    }
}

pub open spec fn id_is_not<T: Identified>(id: int) -> spec_fn(T) -> bool {
    |x: T| x.ident() != id
}

/// `s` without the items whose id is `id`, the rest in order.
pub open spec fn without_id<T: Identified>(s: Seq<T>, id: int) -> Seq<T> {
    s.filter(id_is_not::<T>(id))
}

/// The first index whose item has id `id`.
fn find_id<T: Identified>(items: &[T], id: i64) -> (r: Option<usize>)
    ensures
        match r {
            Some(i) => first_id_at(items@, id as int, i as int),
            None => !holds_id(items@, id as int),
        },
{
    let mut i: usize = 0;
    while i < items.len()
        invariant
            i <= items@.len(),
            forall|j: int| 0 <= j < i ==> (#[trigger] items@[j]).ident() != id,
        decreases items.len() - i,
    {
        if items[i].ident_value() == id {
            return Some(i);
        }
        i = i + 1;
    }
    None
}

proof fn lemma_first_id_unique<T: Identified>(s: Seq<T>, id: int, i: int, j: int)
    requires
        first_id_at(s, id, i),
        first_id_at(s, id, j),
    ensures
        i == j,
{
    if j < i {
        assert(s[j].ident() == id);
    } else if j > i {
        assert(s[i].ident() == id);
    }
}

/// Remove every item whose id is `id`, keeping the others in order.
fn drop_id<T: Identified>(items: &mut Vec<T>, id: i64)
    ensures
        final(items)@ == without_id(old(items)@, id as int),
{
    let ghost all = items@;
    let ghost keep = id_is_not::<T>(id as int);
    let mut rest: Vec<T> = Vec::new();
    core::mem::swap(&mut rest, items);
    let total: usize = rest.len();
    let mut i: usize = 0;
    proof {
        reveal(Seq::filter);
        assert(all.take(0) =~= Seq::<T>::empty());
        assert(all.skip(0) == all);
    }
    while rest.len() > 0
        invariant
            i <= all.len(),
            all.len() == total,
            keep == id_is_not::<T>(id as int),
            rest@ == all.skip(i as int),
            items@ == all.take(i as int).filter(keep),
        decreases rest.len(),
    {
        let x = rest.remove(0);
        proof {
            reveal(Seq::filter);
            assert(x == all[i as int]);
            assert(all.skip(i as int).remove(0) =~= all.skip(i + 1));
            assert(all.take(i + 1).drop_last() =~= all.take(i as int));
            assert(all.take(i + 1).last() == x);
        }
        if x.ident_value() != id {
            items.push(x);
        }
        i = i + 1;
    }
    proof {
        assert(all.take(i as int) =~= all);
    }
}

/// Save a routine: one with id 0 is new, gets the id `fresh` and goes last;
/// otherwise it replaces the routine with its id in place, and is refused
/// when there is none. Returns the id it was stored under.
pub fn save_routine<B>(routines: &mut Vec<Routine<B>>, routine: Routine<B>, fresh: RoutineId) -> (r: Result<
    RoutineId,
    LibraryError,
>)
    ensures
        routine.id.0 == 0 ==> r == Ok::<RoutineId, LibraryError>(fresh)
            && final(routines)@ == old(routines)@.push(Routine { id: fresh, ..routine }),
        routine.id.0 != 0 ==> forall|i: int| first_id_at(old(routines)@, routine.id.0 as int, i)
            ==> r == Ok::<RoutineId, LibraryError>(routine.id) && final(routines)@ == old(routines)@.update(i, routine),
        routine.id.0 != 0 && !holds_id(old(routines)@, routine.id.0 as int)
            ==> r == Err::<RoutineId, LibraryError>(LibraryError::NotFound) && final(routines)@ == old(routines)@,
{
    if routine.id.0 == 0 {
        let mut routine = routine;
        routine.id = fresh;
        routines.push(routine);
        return Ok(fresh);
    }
    let id = routine.id;
    match find_id(routines.as_slice(), id.0) {
        Some(i) => {
            proof {
                assert forall|j: int| first_id_at(old(routines)@, id.0 as int, j) implies j == i by {
                    lemma_first_id_unique(old(routines)@, id.0 as int, i as int, j);
                }
            }
            routines.set(i, routine);
            Ok(id)
        },
        None => Err(LibraryError::NotFound),
    }
}

/// Remove the routine with id `id`.
pub fn delete_routine<B>(routines: &mut Vec<Routine<B>>, id: RoutineId)
    ensures
        final(routines)@ == without_id(old(routines)@, id.0 as int),
{
    drop_id(routines, id.0);
}

/// What a new loop is made from; it gets its id and song when stored.
pub struct NewLoop<T> {
    pub name: String,
    pub name_override: Option<String>,
    pub start: T,
    pub end: T,
    pub kind: LoopKind,
}

/// Store a new loop of song `song_id` under id `id`, after the others.
pub fn insert_loop<T>(loops: &mut Vec<LoopRegion<T>>, song_id: SongId, id: LoopId, l: NewLoop<T>)
    ensures
        final(loops)@ == old(loops)@.push(
            LoopRegion {
                id,
                song_id,
                name: l.name,
                name_override: l.name_override,
                start: l.start,
                end: l.end,
                kind: l.kind,
            },
        ),
{
    loops.push(
        LoopRegion {
            id,
            song_id,
            name: l.name,
            name_override: l.name_override,
            start: l.start,
            end: l.end,
            kind: l.kind,
        },
    );
}

/// Give the loop with id `id` a new name, override and bounds; its id, song
/// and kind stay. Returns where it sits, or `NotFound`.
pub fn update_loop<T>(
    loops: &mut Vec<LoopRegion<T>>,
    id: LoopId,
    name: String,
    name_override: Option<String>,
    start: T,
    end: T,
) -> (r: Result<usize, LibraryError>)
    ensures
        forall|i: int| first_id_at(old(loops)@, id.0 as int, i) ==> r == Ok::<usize, LibraryError>(i as usize)
            && final(loops)@ == old(loops)@.update(i, LoopRegion { name, name_override, start, end, ..old(loops)@[i] }),
        !holds_id(old(loops)@, id.0 as int) ==> r == Err::<usize, LibraryError>(LibraryError::NotFound)
            && final(loops)@ == old(loops)@,
{
    match find_id(loops.as_slice(), id.0) {
        Some(i) => {
            proof {
                assert forall|j: int| first_id_at(old(loops)@, id.0 as int, j) implies j == i by {
                    lemma_first_id_unique(old(loops)@, id.0 as int, i as int, j);
                }
            }
            let mut lp = loops.remove(i);
            lp.name = name;
            lp.name_override = name_override;
            lp.start = start;
            lp.end = end;
            loops.insert(i, lp);
            Ok(i)
        },
        None => Err(LibraryError::NotFound),
    }
}

/// Remove the loop with id `id`.
pub fn delete_loop<T>(loops: &mut Vec<LoopRegion<T>>, id: LoopId)
    ensures
        final(loops)@ == without_id(old(loops)@, id.0 as int),
{
    drop_id(loops, id.0);
}

/// Turn the click guide of the section with id `section_id` on or off; with
/// no such section nothing changes.
pub fn set_section_click_guide<T>(sections: &mut Vec<Section<T>>, section_id: SectionId, on: bool)
    ensures
        forall|i: int| first_id_at(old(sections)@, section_id.0 as int, i)
            ==> final(sections)@ == old(sections)@.update(i, Section { click_guide: on, ..old(sections)@[i] }),
        !holds_id(old(sections)@, section_id.0 as int) ==> final(sections)@ == old(sections)@,
{
    match find_id(sections.as_slice(), section_id.0) {
        Some(i) => {
            proof {
                assert forall|j: int| first_id_at(old(sections)@, section_id.0 as int, j) implies j == i by {
                    lemma_first_id_unique(old(sections)@, section_id.0 as int, i as int, j);
                }
            }
            let mut s = sections.remove(i);
            s.click_guide = on;
            sections.insert(i, s);
        },
        None => {},
    }
}

/// What a new section is made from; it gets its id and song when stored.
pub struct NewSection<T> {
    pub name: String,
    pub start: T,
    pub end: T,
    pub position: i32,
    pub click_guide: bool,
}

/// The section stored from `n` under id `id` for song `song_id`.
pub open spec fn section_from<T>(n: NewSection<T>, id: SectionId, song_id: SongId) -> Section<T> {
    Section {
        id,
        song_id,
        name: n.name,
        start: n.start,
        end: n.end,
        position: n.position,
        click_guide: n.click_guide,
    }
}

/// A song's new section list: each new section paired with its id, then
/// stably ordered by position.
pub fn replace_sections<T>(song_id: SongId, sections: Vec<NewSection<T>>, ids: Vec<SectionId>) -> (r: Vec<Section<T>>)
    requires
        ids@.len() == sections@.len(),
    ensures
        r@ == sort_by(
            Seq::new(sections@.len(), |i: int| section_from(sections@[i], ids@[i], song_id)),
            key_fn::<Section<T>>(),
        ),
{
    let ghost made = Seq::new(sections@.len(), |i: int| section_from(sections@[i], ids@[i], song_id));
    let ghost src = sections@;
    let ghost idv = ids@;
    let total: usize = ids.len();
    let mut rest = sections;
    let mut out: Vec<Section<T>> = Vec::new();
    let mut k: usize = 0;
    while rest.len() > 0
        invariant
            k <= src.len(),
            idv.len() == src.len(),
            src.len() == total,
            rest@ == src.skip(k as int),
            out@ == made.take(k as int),
            made == Seq::new(src.len(), |i: int| section_from(src[i], idv[i], song_id)),
            ids@ == idv,
        decreases rest.len(),
    {
        let n = rest.remove(0);
        proof {
            assert(n == src[k as int]);
            assert(src.skip(k as int).remove(0) =~= src.skip(k + 1));
            assert(made.take(k + 1) =~= made.take(k as int).push(made[k as int]));
        }
        let id = ids[k];
        out.push(Section {
            id,
            song_id,
            name: n.name,
            start: n.start,
            end: n.end,
            position: n.position,
            click_guide: n.click_guide,
        });
        k = k + 1;
    }
    proof {
        assert(made.take(k as int) =~= made);
    }
    stable_sort(out)
}

impl LeOrder for SectionNote {
    open spec fn le_spec(&self, other: &Self) -> bool {
        chars_le(self.label@, other.label@)
    }

    fn le(&self, other: &Self) -> (r: bool) {
        str_le(self.label.as_str(), other.label.as_str())
    }
}

/// Nothing in `doc` is worth storing.
pub open spec fn doc_is_blank(doc: NotesDoc) -> bool {
    forall|k: int| 0 <= k < doc.blocks@.len() ==> block_is_blank(#[trigger] doc.blocks@[k])
}

/// `i` is the first index of `notes` stored under `label`.
pub open spec fn first_label_at(notes: Seq<SectionNote>, label: Seq<char>, i: int) -> bool {
    &&& 0 <= i < notes.len()
    &&& notes[i].label@ == label
    &&& forall|j: int| 0 <= j < i ==> (#[trigger] notes[j]).label@ != label
}

pub open spec fn label_is_not(label: Seq<char>) -> spec_fn(SectionNote) -> bool {
    |n: SectionNote| n.label@ != label
}

/// The notes stored under `label`, if any.
pub fn get_section_notes<'a>(notes: &'a [SectionNote], label: &str) -> (r: Option<&'a NotesDoc>)
    ensures
        r is Some <==> exists|i: int| 0 <= i < notes@.len() && (#[trigger] notes@[i]).label@ == label@,
        forall|i: int| first_label_at(notes@, label@, i) ==> r == Some(&notes@[i].doc),
{
    let mut i: usize = 0;
    while i < notes.len()
        invariant
            i <= notes@.len(),
            forall|j: int| 0 <= j < i ==> (#[trigger] notes@[j]).label@ != label@,
        decreases notes.len() - i,
    {
        if str_eq(notes[i].label.as_str(), label) {
            proof {
                assert forall|j: int| first_label_at(notes@, label@, j) implies j == i by {
                    if j < i {
                        assert(notes@[j].label@ == label@);
                    } else if j > i {
                        assert(notes@[i as int].label@ == label@);
                    }
                }
            }
            return Some(&notes[i].doc);
        }
        i = i + 1;
    }
    None
}

/// Store `doc` under `label`, replacing what was there; a blank `doc` just
/// removes the label's notes. The list stays ordered by label.
pub fn set_section_notes(notes: &mut Vec<SectionNote>, label: String, doc: NotesDoc)
    ensures
        doc_is_blank(doc) ==> final(notes)@ == old(notes)@.filter(label_is_not(label@)),
        !doc_is_blank(doc) ==> final(notes)@ == sort_by_le(
            old(notes)@.filter(label_is_not(label@)).push(SectionNote { label, doc }),
            le_fn::<SectionNote>(),
        ),
{
    let ghost all = notes@;
    let ghost keep = label_is_not(label@);
    let mut rest: Vec<SectionNote> = Vec::new();
    core::mem::swap(&mut rest, notes);
    let total: usize = rest.len();
    let mut i: usize = 0;
    proof {
        reveal(Seq::filter);
        assert(all.take(0) =~= Seq::<SectionNote>::empty());
        assert(all.skip(0) == all);
    }
    while rest.len() > 0
        invariant
            i <= all.len(),
            all.len() == total,
            keep == label_is_not(label@),
            rest@ == all.skip(i as int),
            notes@ == all.take(i as int).filter(keep),
        decreases rest.len(),
    {
        let n = rest.remove(0);
        proof {
            reveal(Seq::filter);
            assert(n == all[i as int]);
            assert(all.skip(i as int).remove(0) =~= all.skip(i + 1));
            assert(all.take(i + 1).drop_last() =~= all.take(i as int));
            assert(all.take(i + 1).last() == n);
        }
        if !str_eq(n.label.as_str(), label.as_str()) {
            notes.push(n);
        }
        i = i + 1;
    }
    proof {
        assert(all.take(i as int) =~= all);
    }
    if !doc.is_empty() {
        notes.push(SectionNote { label, doc });
        let mut kept: Vec<SectionNote> = Vec::new();
        core::mem::swap(&mut kept, notes);
        *notes = stable_sort_le(kept);
    }
}

/// After notes are set under a label, the label holds exactly the new notes
/// (so reading it gives them back), or nothing when they were blank.
pub proof fn lemma_set_then_get_notes(old: Seq<SectionNote>, label: String, doc: NotesDoc, new: Seq<SectionNote>)
    requires
        doc_is_blank(doc) ==> new == old.filter(label_is_not(label@)),
        !doc_is_blank(doc) ==> new == sort_by_le(
            old.filter(label_is_not(label@)).push(SectionNote { label, doc }),
            le_fn::<SectionNote>(),
        ),
    ensures
        doc_is_blank(doc) ==> forall|i: int| 0 <= i < new.len() ==> (#[trigger] new[i]).label@ != label@,
        !doc_is_blank(doc) ==> exists|i: int| 0 <= i < new.len() && (#[trigger] new[i]).label@ == label@,
        !doc_is_blank(doc) ==> forall|i: int| 0 <= i < new.len() && (#[trigger] new[i]).label@ == label@
            ==> new[i] == (SectionNote { label, doc }),
{
    broadcast use vstd::seq_lib::group_filter_ensures;
    broadcast use vstd::seq_lib::group_to_multiset_ensures;

    let kept = old.filter(label_is_not(label@));
    let x = SectionNote { label, doc };
    if doc_is_blank(doc) {
        assert forall|i: int| 0 <= i < new.len() implies (#[trigger] new[i]).label@ != label@ by {
            assert(label_is_not(label@)(kept[i]));
        }
    } else {
        let p = kept.push(x);
        lemma_sort_by_le_multiset(p, le_fn::<SectionNote>());
        assert(p[p.len() - 1] == x);
        assert(p.contains(x));
        assert(p.to_multiset().count(x) > 0);
        assert(new.contains(x));
        let w = choose|w: int| 0 <= w < new.len() && new[w] == x;
        assert(new[w].label@ == label@);
        assert forall|i: int| 0 <= i < new.len() && (#[trigger] new[i]).label@ == label@ implies new[i] == x by {
            let y = new[i];
            assert(new.contains(y));
            assert(new.to_multiset().count(y) > 0);
            assert(p.contains(y));
            let q = choose|q: int| 0 <= q < p.len() && p[q] == y;
            if q < kept.len() {
                assert(p[q] == kept[q]);
                assert(label_is_not(label@)(kept[q]));
            }
        }
    }
}

/// The ids the items of `s` carry.
pub open spec fn id_set<T: Identified>(s: Seq<T>) -> Set<i64> {
    Set::new(|x: i64| exists|i: int| 0 <= i < s.len() && (#[trigger] s[i]).ident() == x as int)
}

/// Record in `used` the ids `items` carry, so that a freshly drawn id can
/// avoid them.
pub fn note_ids<T: Identified>(used: &mut HashSet<i64>, items: &[T])
    ensures
        final(used)@ == old(used)@.union(id_set(items@)),
{
    broadcast use vstd::std_specs::hash::group_hash_axioms;

    let ghost start = used@;
    let mut k: usize = 0;
    assert(start.union(id_set(items@.take(0))) =~= start);
    while k < items.len()
        invariant
            k <= items@.len(),
            used@ == start.union(id_set(items@.take(k as int))),
        decreases items.len() - k,
    {
        let id = items[k].ident_value();
        used.insert(id);
        proof {
            let a = items@.take(k as int);
            let b = items@.take(k + 1);
            assert forall|x: i64| #[trigger] id_set(b).contains(x) <==> id_set(a).insert(id).contains(x) by {
                if id_set(b).contains(x) {
                    let w = choose|w: int| 0 <= w < b.len() && (#[trigger] b[w]).ident() == x as int;
                    if w < k {
                        assert(a[w] == b[w]);
                    }
                }
                if id_set(a).contains(x) {
                    let w = choose|w: int| 0 <= w < a.len() && (#[trigger] a[w]).ident() == x as int;
                    assert(b[w] == a[w]);
                }
                if x == id {
                    assert(b[k as int] == items@[k as int]);
                }
            }
            assert(id_set(b) =~= id_set(a).insert(id));
            assert(used@ =~= start.union(id_set(b)));
        }
        k = k + 1;
    }
    assert(items@.take(k as int) =~= items@);
}

/// Labels strictly increase along `s` in string order, so each label holds
/// at most one entry.
pub open spec fn labels_ordered(s: Seq<SectionNote>) -> bool {
    forall|i: int, j: int| 0 <= i < j < s.len() ==> chars_le((#[trigger] s[i]).label@, (#[trigger] s[j]).label@)
        && s[i].label@ != s[j].label@
}

/// The notes stored under each label of `s`.
pub open spec fn notes_map(s: Seq<SectionNote>) -> Map<Seq<char>, NotesDoc> {
    Map::new(
        |l: Seq<char>| exists|i: int| 0 <= i < s.len() && (#[trigger] s[i]).label@ == l,
        |l: Seq<char>| s[choose|i: int| 0 <= i < s.len() && (#[trigger] s[i]).label@ == l].doc,
    )
}

proof fn lemma_notes_map_lookup(s: Seq<SectionNote>, i: int)
    requires
        labels_ordered(s),
        0 <= i < s.len(),
    ensures
        notes_map(s).contains_key(s[i].label@),
        notes_map(s)[s[i].label@] == s[i].doc,
{
    let l = s[i].label@;
    let c = choose|c: int| 0 <= c < s.len() && (#[trigger] s[c]).label@ == l;
    if c < i {
        assert(s[c].label@ != s[i].label@);
    } else if c > i {
        assert(s[i].label@ != s[c].label@);
    }
}

proof fn lemma_drop_label(s: Seq<SectionNote>, l: Seq<char>) -> (i: int)
    requires
        labels_ordered(s),
    ensures
        (exists|k: int| 0 <= k < s.len() && (#[trigger] s[k]).label@ == l) ==> 0 <= i < s.len() && s[i].label@ == l
            && s.filter(label_is_not(l)) == s.remove(i),
        !(exists|k: int| 0 <= k < s.len() && (#[trigger] s[k]).label@ == l) ==> s.filter(label_is_not(l)) == s,
    decreases s.len(),
{
    reveal(Seq::filter);
    if s.len() == 0 {
        0
    } else {
        let d = s.drop_last();
        assert forall|a: int, b: int| 0 <= a < b < d.len() implies chars_le((#[trigger] d[a]).label@, (#[trigger] d[b]).label@)
            && d[a].label@ != d[b].label@ by {
            assert(d[a] == s[a] && d[b] == s[b]);
        }
        let i = lemma_drop_label(d, l);
        let last = s.last();
        assert(s.filter(label_is_not(l)) == if label_is_not(l)(last) { d.filter(label_is_not(l)).push(last) } else {
            d.filter(label_is_not(l))
        });
        if last.label@ == l {
            assert(!(exists|k: int| 0 <= k < d.len() && (#[trigger] d[k]).label@ == l)) by {
                if exists|k: int| 0 <= k < d.len() && (#[trigger] d[k]).label@ == l {
                    let w = choose|w: int| 0 <= w < d.len() && (#[trigger] d[w]).label@ == l;
                    assert(s[w] == d[w]);
                    assert(s[w].label@ != s[s.len() - 1].label@);
                }
            }
            assert(s.remove(s.len() - 1) =~= d);
            s.len() - 1
        } else if exists|k: int| 0 <= k < d.len() && (#[trigger] d[k]).label@ == l {
            assert(s[i] == d[i]);
            assert(d.remove(i).push(last) =~= s.remove(i));
            i
        } else {
            assert(d.push(last) =~= s);
            assert(!(exists|k: int| 0 <= k < s.len() && (#[trigger] s[k]).label@ == l)) by {
                if exists|k: int| 0 <= k < s.len() && (#[trigger] s[k]).label@ == l {
                    let w = choose|w: int| 0 <= w < s.len() && (#[trigger] s[w]).label@ == l;
                    if w < d.len() {
                        assert(d[w] == s[w]);
                    }
                }
            }
            0
        }
    }
}

/// Inserting a note whose label is new into label-ordered notes puts it
/// between the smaller and the greater labels.
proof fn lemma_insert_new_label(s: Seq<SectionNote>, x: SectionNote) -> (j: int)
    requires
        labels_ordered(s),
        forall|k: int| 0 <= k < s.len() ==> (#[trigger] s[k]).label@ != x.label@,
    ensures
        0 <= j <= s.len(),
        insert_by_le(s, x, le_fn::<SectionNote>()) == s.insert(j, x),
        forall|i: int| 0 <= i < j ==> chars_le((#[trigger] s[i]).label@, x.label@),
        forall|i: int| j <= i < s.len() ==> chars_le(x.label@, (#[trigger] s[i]).label@),
    decreases s.len(),
{
    let le = le_fn::<SectionNote>();
    if s.len() == 0 {
        assert(s.insert(0, x) =~= seq![x]);
        0
    } else if le(s.last(), x) {
        assert forall|i: int| 0 <= i < s.len() implies chars_le((#[trigger] s[i]).label@, x.label@) by {
            if i < s.len() - 1 {
                lemma_chars_le_transitive(s[i].label@, s[s.len() - 1].label@, x.label@);
            }
        }
        assert(s.insert(s.len() as int, x) =~= s.push(x));
        s.len() as int
    } else {
        let d = s.drop_last();
        assert forall|a: int, b: int| 0 <= a < b < d.len() implies chars_le((#[trigger] d[a]).label@, (#[trigger] d[b]).label@)
            && d[a].label@ != d[b].label@ by {
            assert(d[a] == s[a] && d[b] == s[b]);
        }
        assert forall|k: int| 0 <= k < d.len() implies (#[trigger] d[k]).label@ != x.label@ by {
            assert(d[k] == s[k]);
        }
        lemma_chars_le_total(s.last().label@, x.label@);
        let j = lemma_insert_new_label(d, x);
        assert(d.insert(j, x).push(s.last()) =~= s.insert(j, x));
        assert forall|i: int| 0 <= i < j implies chars_le((#[trigger] s[i]).label@, x.label@) by {
            assert(s[i] == d[i]);
        }
        assert forall|i: int| j <= i < s.len() implies chars_le(x.label@, (#[trigger] s[i]).label@) by {
            if i < s.len() - 1 {
                assert(s[i] == d[i]);
            }
        }
        j
    }
}

/// Notes kept in label order stay so when notes are set under a label, one
/// entry per label; the label then holds the new notes (nothing, when they
/// are blank) and every other label what it held before.
pub proof fn lemma_set_notes_keeps_order(old: Seq<SectionNote>, label: String, doc: NotesDoc, new: Seq<SectionNote>)
    requires
        labels_ordered(old),
        doc_is_blank(doc) ==> new == old.filter(label_is_not(label@)),
        !doc_is_blank(doc) ==> new == sort_by_le(
            old.filter(label_is_not(label@)).push(SectionNote { label, doc }),
            le_fn::<SectionNote>(),
        ),
    ensures
        labels_ordered(new),
        doc_is_blank(doc) ==> notes_map(new) == notes_map(old).remove(label@),
        !doc_is_blank(doc) ==> notes_map(new) == notes_map(old).insert(label@, doc),
{
    let l = label@;
    let kept = old.filter(label_is_not(l));
    let i = lemma_drop_label(old, l);
    let found = exists|k: int| 0 <= k < old.len() && (#[trigger] old[k]).label@ == l;
    // the kept notes: ordered, without `l`, and mapping every other label as before
    assert forall|a: int, b: int| 0 <= a < b < kept.len() implies chars_le((#[trigger] kept[a]).label@, (#[trigger] kept[b]).label@)
        && kept[a].label@ != kept[b].label@ by {
        if found {
            if b < i {
                assert(kept[a] == old[a] && kept[b] == old[b]);
            } else if a < i {
                assert(kept[a] == old[a] && kept[b] == old[b + 1]);
            } else {
                assert(kept[a] == old[a + 1] && kept[b] == old[b + 1]);
            }
        }
    }
    assert forall|k: int| 0 <= k < kept.len() implies (#[trigger] kept[k]).label@ != l by {
        if found {
            if k < i {
                assert(kept[k] == old[k]);
                assert(old[k].label@ != old[i].label@);
            } else {
                assert(kept[k] == old[k + 1]);
                assert(old[i].label@ != old[k + 1].label@);
            }
        } else {
            assert(kept[k] == old[k]);
        }
    }
    assert(notes_map(kept) =~= notes_map(old).remove(l)) by {
        assert forall|q: Seq<char>| #[trigger] notes_map(kept).contains_key(q) <==> notes_map(old).remove(l).contains_key(q) by {
            if notes_map(kept).contains_key(q) {
                let w = choose|w: int| 0 <= w < kept.len() && (#[trigger] kept[w]).label@ == q;
                if found && w >= i {
                    assert(old[w + 1] == kept[w]);
                } else {
                    assert(old[w] == kept[w]);
                }
            }
            if notes_map(old).contains_key(q) && q != l {
                let w = choose|w: int| 0 <= w < old.len() && (#[trigger] old[w]).label@ == q;
                if found && w > i {
                    assert(kept[w - 1] == old[w]);
                } else {
                    assert(kept[w] == old[w]);
                }
            }
        }
        assert forall|q: Seq<char>| #[trigger] notes_map(kept).contains_key(q) implies notes_map(kept)[q] == notes_map(old).remove(l)[q] by {
            let w = choose|w: int| 0 <= w < kept.len() && (#[trigger] kept[w]).label@ == q;
            lemma_notes_map_lookup(kept, w);
            if found && w >= i {
                assert(old[w + 1] == kept[w]);
                lemma_notes_map_lookup(old, w + 1);
            } else {
                assert(old[w] == kept[w]);
                lemma_notes_map_lookup(old, w);
            }
        }
    }
    if !doc_is_blank(doc) {
        let x = SectionNote { label, doc };
        let le = le_fn::<SectionNote>();
        assert forall|a: int, b: int| 0 <= a < b < kept.len() implies le(#[trigger] kept[a], #[trigger] kept[b]) by {}
        lemma_sort_by_le_sorted_is_identity(kept, le);
        assert(kept.push(x).drop_last() =~= kept);
        assert(sort_by_le(kept.push(x), le) == insert_by_le(sort_by_le(kept, le), x, le));
        let j = lemma_insert_new_label(kept, x);
        assert(new == kept.insert(j, x));
        assert forall|a: int, b: int| 0 <= a < b < new.len() implies chars_le((#[trigger] new[a]).label@, (#[trigger] new[b]).label@)
            && new[a].label@ != new[b].label@ by {
            if b < j {
                assert(new[a] == kept[a] && new[b] == kept[b]);
            } else if b == j {
                assert(new[a] == kept[a] && new[b] == x);
            } else if a < j {
                assert(new[a] == kept[a] && new[b] == kept[b - 1]);
                lemma_chars_le_transitive(kept[a].label@, x.label@, kept[b - 1].label@);
            } else if a == j {
                assert(new[a] == x && new[b] == kept[b - 1]);
            } else {
                assert(new[a] == kept[a - 1] && new[b] == kept[b - 1]);
            }
        }
        assert forall|q: Seq<char>| #[trigger] notes_map(new).contains_key(q) <==> notes_map(kept).insert(l, doc).contains_key(q) by {
            if notes_map(new).contains_key(q) {
                let w = choose|w: int| 0 <= w < new.len() && (#[trigger] new[w]).label@ == q;
                if w < j {
                    assert(kept[w] == new[w]);
                } else if w > j {
                    assert(kept[w - 1] == new[w]);
                }
            }
            if notes_map(kept).contains_key(q) {
                let w = choose|w: int| 0 <= w < kept.len() && (#[trigger] kept[w]).label@ == q;
                if w < j {
                    assert(new[w] == kept[w]);
                } else {
                    assert(new[w + 1] == kept[w]);
                }
            }
            if q == l {
                assert(new[j] == x);
            }
        }
        assert forall|q: Seq<char>| #[trigger] notes_map(new).contains_key(q) implies notes_map(new)[q] == notes_map(kept).insert(l, doc)[q] by {
            let w = choose|w: int| 0 <= w < new.len() && (#[trigger] new[w]).label@ == q;
            lemma_notes_map_lookup(new, w);
            if w < j {
                assert(kept[w] == new[w]);
                lemma_notes_map_lookup(kept, w);
            } else if w > j {
                assert(kept[w - 1] == new[w]);
                lemma_notes_map_lookup(kept, w - 1);
            }
        }
        assert(notes_map(new) =~= notes_map(kept).insert(l, doc));
        assert(notes_map(old).remove(l).insert(l, doc) =~= notes_map(old).insert(l, doc));
    }
}

} // verus!
