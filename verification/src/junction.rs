//! Junction loops: one per seam between sections adjacent in position order,
//! named `A→B` after the two sections. Where each junction starts and ends
//! (a window around the seam, kept inside the two sections) is worked out on
//! the sections' times by the caller.
use vstd::prelude::*;
use crate::model::LoopKind;
use crate::naming::{positions, section_positions, SectionTag};
use crate::order::{indices, key_of, sort_by, sorted_order};
use crate::text::{chars_of, push_str, string_of};

verus! {

/// The seam between the sections at indices `from` and `to`.
#[derive(Debug, Clone, PartialEq)]
pub struct Junction {
    pub from: usize,
    pub to: usize,
    pub name: String,
    pub kind: LoopKind,
}

/// The section indices in position order (ties in list order).
pub open spec fn position_order(sections: Seq<SectionTag>) -> Seq<usize> {
    sort_by(indices(sections.len()), key_of(positions(sections)))
}

/// `A→B` for the seam from `a` into `b`.
pub open spec fn junction_name(a: SectionTag, b: SectionTag) -> Seq<char> {
    a.name@ + seq!['\u{2192}'] + b.name@
}

/// The junction between the `k`-th and `k+1`-th sections in position order.
pub open spec fn junction_at(sections: Seq<SectionTag>, k: int) -> (usize, usize, Seq<char>, LoopKind) {
    let o = position_order(sections);
    let a = sections[o[k] as int];
    let b = sections[o[k + 1] as int];
    (o[k], o[k + 1], junction_name(a, b), LoopKind::Junction { from_section: a.id, to_section: b.id })
}

/// One junction per pair of sections adjacent in position order, in that
/// order; none for fewer than two sections.
pub fn junction_pairs(sections: &[SectionTag]) -> (r: Vec<Junction>)
    ensures
        r@.len() == if sections@.len() == 0 { 0 } else { sections@.len() - 1 },
        forall|k: int| 0 <= k < r@.len() ==> {
            let j = junction_at(sections@, k);
            &&& (#[trigger] r@[k]).from == j.0
            &&& r@[k].to == j.1
            &&& r@[k].name@ == j.2
            &&& r@[k].kind == j.3
        },
{
    let order = sorted_order(&section_positions(sections));
    let mut out: Vec<Junction> = Vec::new();
    if order.len() < 2 {
        return out;
    }
    let mut k: usize = 0;
    while k + 1 < order.len()
        invariant
            order@ == position_order(sections@),
            order@.len() == sections@.len(),
            forall|q: int| 0 <= q < order@.len() ==> order@[q] < sections@.len(),
            k + 1 <= order@.len(),
            out@.len() == k,
            forall|q: int| 0 <= q < out@.len() ==> {
                let j = junction_at(sections@, q);
                &&& (#[trigger] out@[q]).from == j.0
                &&& out@[q].to == j.1
                &&& out@[q].name@ == j.2
                &&& out@[q].kind == j.3
            },
        decreases order.len() - k,
    {
        let a = &sections[order[k]];
        let b = &sections[order[k + 1]];
        let mut name = string_of(&chars_of(a.name.as_str()));
        name.push('\u{2192}');
        push_str(&mut name, b.name.as_str());
        out.push(Junction {
            from: order[k],
            to: order[k + 1],
            name,
            kind: LoopKind::Junction { from_section: a.id, to_section: b.id },
        });
        k = k + 1;
    }
    out
}

} // verus!
