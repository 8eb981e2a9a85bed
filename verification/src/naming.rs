//! Loop names derived from a song's sections. A loop is named after the
//! section(s) it covers; the occurrence number tells same-named sections apart
//! (the 2nd `verse` is `verse 2`). Names are made unique among existing loop
//! names with a ` (n)` suffix.
//!
//! Which sections a loop overlaps, and whether it covers each one's start and
//! end, is decided on the loops' and sections' times (with a small boundary
//! tolerance) and handed in as `Hit`s; the naming itself happens here.
use vstd::prelude::*;
use crate::model::SectionId;
use crate::order::{indices, key_of, sort_by, sorted_order};
use crate::text::{contains_string, decimal, lemma_decimal_injective, lemma_decimal_nonempty, push_decimal,
    push_signed, push_str, signed_decimal, string_of, chars_of};

verus! {

/// What naming needs of a section.
#[derive(Debug, Clone, PartialEq)]
pub struct SectionTag {
    pub id: SectionId,
    pub name: String,
    /// 0-based order within the song.
    pub position: i32,
}

/// A section the loop overlaps (more than a boundary touch).
#[derive(Debug, Clone, Copy, PartialEq, Eq, Structural)]
pub struct Hit {
    /// Index of the section in the song's section list.
    pub index: usize,
    /// The loop starts at or before the section's start (within tolerance).
    pub covers_start: bool,
    /// The loop ends at or after the section's end (within tolerance).
    pub covers_end: bool,
}

pub open spec fn positions(sections: Seq<SectionTag>) -> Seq<i32> {
    sections.map_values(|s: SectionTag| s.position)
}

/// How many sections named `name`, in position order, come before the one
/// with id `id`.
pub open spec fn earlier_same_name(sections: Seq<SectionTag>, order: Seq<usize>, name: Seq<char>, id: SectionId) -> nat
    decreases order.len(),
{
    if order.len() == 0 {
        0
    } else {
        let s = sections[order[0] as int];
        if s.name@ == name {
            if s.id == id { 0 } else { 1 + earlier_same_name(sections, order.drop_first(), name, id) }
        } else {
            earlier_same_name(sections, order.drop_first(), name, id)
        }
    }
}

/// `name n` for a section: `n` counts same-named sections in position order,
/// from 1. The only section named `chorus` is `chorus 1`.
pub open spec fn spec_occurrence_label(section: SectionTag, sections: Seq<SectionTag>) -> Seq<char> {
    let order = sort_by(indices(sections.len()), key_of(positions(sections)));
    section.name@ + seq![' '] + decimal(earlier_same_name(sections, order, section.name@, section.id) + 1)
}

pub(crate) fn section_positions(sections: &[SectionTag]) -> (p: Vec<i32>)
    ensures
        p@ == positions(sections@),
{
    let mut p: Vec<i32> = Vec::new();
    let mut i: usize = 0;
    while i < sections.len()
        invariant
            i <= sections@.len(),
            p@ == positions(sections@.take(i as int)),
        decreases sections.len() - i,
    {
        p.push(sections[i].position);
        proof {
            assert(sections@.take(i + 1) == sections@.take(i as int).push(sections@[i as int]));
            assert(positions(sections@.take(i + 1)) == positions(sections@.take(i as int)).push(sections@[i as int].position));
        }
        i = i + 1;
    }
    proof { assert(sections@.take(sections@.len() as int) == sections@); }
    p
}

/// `name n` for a section — its occurrence among same-named sections in
/// position order, counted from 1.
pub fn occurrence_label(section: &SectionTag, sections: &[SectionTag]) -> (r: String)
    requires
        sections@.len() < u64::MAX,
    ensures
        r@ == spec_occurrence_label(*section, sections@),
{
    let order = sorted_order(&section_positions(sections));
    let ghost ord = order@;
    let mut count: u64 = 0;
    let mut k: usize = 0;
    let mut found = false;
    assert(ord.skip(0) == ord);
    while k < order.len() && !found
        invariant
            k <= order@.len(),
            ord == order@,
            order@.len() == sections@.len(),
            forall|j: int| 0 <= j < order@.len() ==> order@[j] < sections@.len(),
            count <= k,
            sections@.len() < u64::MAX,
            !found ==> earlier_same_name(sections@, ord, section.name@, section.id)
                == count + earlier_same_name(sections@, ord.skip(k as int), section.name@, section.id),
            found ==> earlier_same_name(sections@, ord, section.name@, section.id) == count,
        decreases order.len() - k + (if found { 0int } else { 1int }),
    {
        let s = &sections[order[k]];
        proof {
            assert(ord.skip(k as int).drop_first() == ord.skip(k + 1));
            assert(ord.skip(k as int)[0] == ord[k as int]);
        }
        if s.name == section.name {
            if s.id == section.id {
                found = true;
            } else {
                count = count + 1;
                k = k + 1;
            }
        } else {
            k = k + 1;
        }
    }
    proof {
        if !found {
            assert(ord.skip(k as int).len() == 0);
        }
    }
    let mut r = string_of(&chars_of(section.name.as_str()));
    r.push(' ');
    push_decimal(&mut r, count + 1);
    r
}

/// The `n`-th disambiguated form of `base`: `base (n)`.
pub open spec fn suffixed(base: Seq<char>, n: nat) -> Seq<char> {
    base + seq![' ', '('] + decimal(n) + seq![')']
}

/// `base` if no existing name equals it; otherwise `base (n)` for the
/// smallest `n >= 2` not taken.
pub open spec fn spec_disambiguate(base: Seq<char>, existing: Seq<Seq<char>>) -> Seq<char> {
    if !existing.contains(base) {
        base
    } else {
        suffixed(base, choose|n: nat| n >= 2 && !existing.contains(#[trigger] suffixed(base, n))
            && forall|m: nat| 2 <= m < n ==> existing.contains(#[trigger] suffixed(base, m)))
    }
}

proof fn lemma_suffixed_injective(base: Seq<char>, a: nat, b: nat)
    requires
        suffixed(base, a) == suffixed(base, b),
    ensures
        a == b,
{
    let sa = suffixed(base, a);
    let sb = suffixed(base, b);
    assert(sa.len() == base.len() + 3 + decimal(a).len());
    assert(sb.len() == base.len() + 3 + decimal(b).len());
    assert(decimal(a) == sa.subrange(base.len() as int + 2, sa.len() as int - 1));
    assert(decimal(b) == sb.subrange(base.len() as int + 2, sb.len() as int - 1));
    lemma_decimal_injective(a, b);
}

/// If every suffix `2..=n` is taken, there must be at least `n - 1`
/// distinct existing names.
proof fn lemma_taken_suffixes_bound(base: Seq<char>, existing: Seq<Seq<char>>, n: nat)
    requires
        n >= 2,
        forall|m: nat| 2 <= m <= n ==> existing.contains(#[trigger] suffixed(base, m)),
    ensures
        n - 1 <= existing.len(),
{
    let xs = vstd::set_lib::set_int_range(2, n as int + 1);
    vstd::set_lib::lemma_int_range(2, n as int + 1);
    let f = |m: int| suffixed(base, m as nat);
    let ys = xs.map(f);
    assert(vstd::relations::injective_on(f, xs)) by {
        assert forall|p: int, q: int| xs.contains(p) && xs.contains(q) && #[trigger] f(p) == #[trigger] f(q) implies p == q by {
            lemma_suffixed_injective(base, p as nat, q as nat);
        }
    }
    vstd::set_lib::lemma_map_size(xs, ys, f);
    assert(ys.subset_of(existing.to_set())) by {
        assert forall|y: Seq<char>| ys.contains(y) implies existing.to_set().contains(y) by {
            let m = choose|m: int| xs.contains(m) && f(m) == y;
            assert(existing.contains(suffixed(base, m as nat)));
        }
    }
    existing.lemma_cardinality_of_set();
    vstd::set_lib::lemma_len_subset(ys, existing.to_set());
}

/// Append ` (2)`, ` (3)`, … until the name is unique among `existing`.
pub fn disambiguate(base: String, existing: &[String]) -> (r: String)
    requires
        existing@.len() + 2 <= u64::MAX,
    ensures
        r@ == spec_disambiguate(base@, existing@.map_values(|x: String| x@)),
        !existing@.map_values(|x: String| x@).contains(r@),
{
    let ghost names = existing@.map_values(|x: String| x@);
    if !contains_string(existing, &base) {
        return base;
    }
    let mut n: u64 = 2;
    loop
        invariant
            names == existing@.map_values(|x: String| x@),
            names.contains(base@),
            2 <= n <= existing@.len() + 2,
            existing@.len() + 2 <= u64::MAX,
            forall|m: nat| 2 <= m < n ==> names.contains(#[trigger] suffixed(base@, m)),
        decreases existing@.len() + 2 - n,
    {
        let mut cand = string_of(&chars_of(base.as_str()));
        cand.push(' ');
        cand.push('(');
        push_decimal(&mut cand, n);
        cand.push(')');
        assert(cand@ == suffixed(base@, n as nat));
        if !contains_string(existing, &cand) {
            proof {
                let w = choose|k: nat| k >= 2 && !names.contains(#[trigger] suffixed(base@, k))
                    && forall|m: nat| 2 <= m < k ==> names.contains(#[trigger] suffixed(base@, m));
                assert(n >= 2 && !names.contains(suffixed(base@, n as nat)));
                if w < n {
                    assert(names.contains(suffixed(base@, w)));
                } else if w > n {
                    assert(names.contains(suffixed(base@, n as nat)));
                }
            }
            return cand;
        }
        proof {
            lemma_taken_suffixes_bound(base@, names, n as nat);
        }
        n = n + 1;
    }
}

/// `label` when the loop covers the whole section, `sub label` otherwise.
pub open spec fn spec_edge_label(section: SectionTag, sections: Seq<SectionTag>, full: bool) -> Seq<char> {
    if full {
        spec_occurrence_label(section, sections)
    } else {
        seq!['s', 'u', 'b', ' '] + spec_occurrence_label(section, sections)
    }
}

fn edge_label(section: &SectionTag, sections: &[SectionTag], full: bool) -> (r: String)
    requires
        sections@.len() < u64::MAX,
    ensures
        r@ == spec_edge_label(*section, sections@, full),
{
    let label = occurrence_label(section, sections);
    if full {
        label
    } else {
        let mut r = String::new();
        r.push('s');
        r.push('u');
        r.push('b');
        r.push(' ');
        push_str(&mut r, label.as_str());
        r
    }
}

/// The section positions the hits point at.
pub open spec fn hit_positions(sections: Seq<SectionTag>, hits: Seq<Hit>) -> Seq<i32> {
    hits.map_values(|h: Hit| sections[h.index as int].position)
}

/// The hits in their sections' position order (ties keep input order).
pub open spec fn ordered_hits(sections: Seq<SectionTag>, hits: Seq<Hit>) -> Seq<Hit> {
    sort_by(indices(hits.len()), key_of(hit_positions(sections, hits))).map_values(|k: usize| hits[k as int])
}

/// Every hit points at a section.
pub open spec fn hits_in_range(sections: Seq<SectionTag>, hits: Seq<Hit>) -> bool {
    forall|k: int| 0 <= k < hits.len() ==> (#[trigger] hits[k]).index < sections.len()
}

/// A loop's name before disambiguation: `riff m:ss.t–m:ss.t` when it covers
/// no section; the section's label (`sub` when partial) when it covers one;
/// otherwise the first and last sections' labels joined by ` → `.
pub open spec fn spec_base_name(start_tenths: int, end_tenths: int, sections: Seq<SectionTag>, hits: Seq<Hit>) -> Seq<char> {
    let oh = ordered_hits(sections, hits);
    if oh.len() == 0 {
        seq!['r', 'i', 'f', 'f', ' '] + spec_fmt_tenths(start_tenths) + seq!['\u{2013}'] + spec_fmt_tenths(end_tenths)
    } else if oh.len() == 1 {
        spec_edge_label(sections[oh[0].index as int], sections, oh[0].covers_start && oh[0].covers_end)
    } else {
        let first = oh[0];
        let last = oh.last();
        spec_edge_label(sections[first.index as int], sections, first.covers_start)
            + seq![' ', '\u{2192}', ' ']
            + spec_edge_label(sections[last.index as int], sections, last.covers_end)
    }
}

/// The name of a loop from its bounds (in tenths of a second, for the
/// timestamp fallback) and the sections it overlaps.
pub fn base_name(start_tenths: i64, end_tenths: i64, sections: &[SectionTag], hits: &[Hit]) -> (r: String)
    requires
        hits_in_range(sections@, hits@),
        sections@.len() < u64::MAX,
    ensures
        r@ == spec_base_name(start_tenths as int, end_tenths as int, sections@, hits@),
        hits@.len() == 1 ==> r@ == ({
            let h = hits@[0];
            let label = spec_occurrence_label(sections@[h.index as int], sections@);
            if h.covers_start && h.covers_end { label } else { seq!['s', 'u', 'b', ' '] + label }
        }),
{
    proof {
        if hits@.len() == 1 {
            lemma_single_section_name(start_tenths as int, end_tenths as int, sections@, hits@);
        }
    }
    let mut keys: Vec<i32> = Vec::new();
    let mut i: usize = 0;
    while i < hits.len()
        invariant
            i <= hits@.len(),
            hits_in_range(sections@, hits@),
            keys@ == hit_positions(sections@, hits@.take(i as int)),
        decreases hits.len() - i,
    {
        keys.push(sections[hits[i].index].position);
        proof {
            assert(hits@.take(i + 1) == hits@.take(i as int).push(hits@[i as int]));
            assert(hit_positions(sections@, hits@.take(i + 1))
                == hit_positions(sections@, hits@.take(i as int)).push(sections@[hits@[i as int].index as int].position));
        }
        i = i + 1;
    }
    proof { assert(hits@.take(hits@.len() as int) == hits@); }
    let order = sorted_order(&keys);
    let ghost oh = ordered_hits(sections@, hits@);
    assert(oh.len() == order@.len());
    let n = order.len();
    if n == 0 {
        let mut r = String::new();
        push_str(&mut r, "riff ");
        let a = fmt_tenths(start_tenths);
        push_str(&mut r, a.as_str());
        r.push('\u{2013}');
        let b = fmt_tenths(end_tenths);
        push_str(&mut r, b.as_str());
        proof {
            reveal_strlit("riff ");
            assert("riff "@ =~= seq!['r', 'i', 'f', 'f', ' ']);
        }
        r
    } else if n == 1 {
        let h = hits[order[0]];
        assert(oh[0] == h);
        edge_label(&sections[h.index], sections, h.covers_start && h.covers_end)
    } else {
        let first = hits[order[0]];
        let last = hits[order[n - 1]];
        assert(oh[0] == first);
        assert(oh.last() == last);
        let mut r = edge_label(&sections[first.index], sections, first.covers_start);
        r.push(' ');
        r.push('\u{2192}');
        r.push(' ');
        let right = edge_label(&sections[last.index], sections, last.covers_end);
        push_str(&mut r, right.as_str());
        r
    }
}

/// A loop's display name: its base name made unique among `existing` loop
/// names with a ` (n)` suffix.
pub fn loop_name(start_tenths: i64, end_tenths: i64, sections: &[SectionTag], hits: &[Hit], existing: &[String]) -> (r: String)
    requires
        hits_in_range(sections@, hits@),
        sections@.len() < u64::MAX,
        existing@.len() + 2 <= u64::MAX,
    ensures
        r@ == spec_disambiguate(spec_base_name(start_tenths as int, end_tenths as int, sections@, hits@),
            existing@.map_values(|x: String| x@)),
        !existing@.map_values(|x: String| x@).contains(r@),
{
    let base = base_name(start_tenths, end_tenths, sections, hits);
    disambiguate(base, existing)
}

/// `m:ss.t` for a time given in tenths of a second.
pub open spec fn spec_fmt_tenths(t: int) -> Seq<char> {
    let minutes = crate::stream_clock::div_toward_zero(t, 600);
    let rem = t - minutes * 600;
    let secs = crate::stream_clock::div_toward_zero(rem, 10);
    let tenth = t - crate::stream_clock::div_toward_zero(t, 10) * 10;
    signed_decimal(minutes) + seq![':'] + (if 0 <= secs < 10 { seq!['0'] } else { Seq::empty() })
        + signed_decimal(secs) + seq!['.'] + signed_decimal(tenth)
}

/// A timestamp `m:ss.t` (minutes, zero-padded seconds, tenths).
pub fn fmt_tenths(t: i64) -> (s: String)
    ensures
        s@ == spec_fmt_tenths(t as int),
{
    let minutes = match t.checked_div(600) { Some(q) => q, None => 0 };
    let rem = match t.checked_rem(600) { Some(r) => r, None => 0 };
    let secs = match rem.checked_div(10) { Some(q) => q, None => 0 };
    let tenth = match t.checked_rem(10) { Some(r) => r, None => 0 };
    proof {
        assert(rem == t - minutes * 600);
    }
    let mut s = String::new();
    push_signed(&mut s, minutes);
    s.push(':');
    if 0 <= secs && secs < 10 {
        s.push('0');
    }
    push_signed(&mut s, secs);
    s.push('.');
    push_signed(&mut s, tenth);
    s
}

/// A loop that overlaps exactly one section is named by that section's
/// occurrence label alone only when it covers both the section's start and
/// its end; covering one edge or neither makes it `sub ` and the label.
pub proof fn lemma_single_section_name(start_tenths: int, end_tenths: int, sections: Seq<SectionTag>, hits: Seq<Hit>)
    requires
        hits.len() == 1,
        hits_in_range(sections, hits),
    ensures
        ({
            let h = hits[0];
            let label = spec_occurrence_label(sections[h.index as int], sections);
            spec_base_name(start_tenths, end_tenths, sections, hits)
                == if h.covers_start && h.covers_end { label } else { seq!['s', 'u', 'b', ' '] + label }
        }),
{
    let keys = key_of(hit_positions(sections, hits));
    let ix = indices(hits.len());
    assert(ix =~= seq![0usize]);
    assert(ix.drop_last() =~= Seq::<usize>::empty());
    assert(sort_by(ix.drop_last(), keys) == Seq::<usize>::empty());
    assert(sort_by(ix, keys) =~= seq![0usize]);
    assert(ordered_hits(sections, hits) =~= seq![hits[0]]);
}

/// A loop that overlaps several sections is named `first → last`: the first
/// section's label, `sub` unless the loop covers that section's start, and
/// the last section's label, `sub` unless the loop covers that section's end.
pub proof fn lemma_spanning_name(start_tenths: int, end_tenths: int, sections: Seq<SectionTag>, hits: Seq<Hit>)
    requires
        hits.len() >= 2,
        hits_in_range(sections, hits),
    ensures
        ({
            let oh = ordered_hits(sections, hits);
            let first = oh[0];
            let last = oh.last();
            let a = spec_occurrence_label(sections[first.index as int], sections);
            let b = spec_occurrence_label(sections[last.index as int], sections);
            &&& oh.len() == hits.len()
            &&& spec_base_name(start_tenths, end_tenths, sections, hits)
                == (if first.covers_start { a } else { seq!['s', 'u', 'b', ' '] + a })
                    + seq![' ', '\u{2192}', ' ']
                    + (if last.covers_end { b } else { seq!['s', 'u', 'b', ' '] + b })
        }),
{
    broadcast use vstd::seq_lib::group_to_multiset_ensures;
    let keys = key_of(hit_positions(sections, hits));
    let sorted = sort_by(indices(hits.len()), keys);
    crate::order::lemma_sort_by_multiset(indices(hits.len()), keys);
    assert(sorted.len() == sorted.to_multiset().len());
    assert(indices(hits.len()).len() == indices(hits.len()).to_multiset().len());
    assert(ordered_hits(sections, hits).len() == sorted.len());
}

} // verus!
