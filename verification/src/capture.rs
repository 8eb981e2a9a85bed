//! Capture sources: what a registry scan reports about each audio source
//! node, and how a node's display name and target serial are chosen.
use vstd::prelude::*;
use crate::text::{parse_u64, spec_parse_u64};

verus! {

#[derive(Debug, Clone, PartialEq)]
pub struct CaptureNode {
    /// Registry id.
    pub id: u32,
    /// `object.serial`: what a capture stream's target matches on (registry
    /// ids do not work as targets).
    pub serial: u64,
    /// Friendly device or application name.
    pub app: String,
    /// `media.name` (e.g. the song title an application is playing), or "".
    pub media: String,
}

/// The first present value of `candidates`, in order.
pub open spec fn first_present(candidates: Seq<Option<String>>) -> Option<String>
    decreases candidates.len(),
{
    if candidates.len() == 0 {
        None
    } else if candidates[0] is Some {
        candidates[0]
    } else {
        first_present(candidates.drop_first())
    }
}

/// Build the node record from a registry entry's properties: the name is
/// `node.description`, else `application.name`, else `node.name`, else empty;
/// the serial is `object.serial` read as a decimal number, else (absent or
/// unreadable) the registry id; the media title is `media.name` or empty.
pub fn capture_node(
    id: u32,
    serial: Option<String>,
    description: Option<String>,
    application: Option<String>,
    node_name: Option<String>,
    media: Option<String>,
) -> (n: CaptureNode)
    ensures
        n.id == id,
        n.serial == match serial {
            Some(s) => match spec_parse_u64(s@) {
                Some(v) => v,
                None => id as u64,
            },
            None => id as u64,
        },
        n.app@ == match first_present(seq![description, application, node_name]) {
            Some(s) => s@,
            None => Seq::<char>::empty(),
        },
        n.media@ == match media { Some(m) => m@, None => Seq::<char>::empty() },
{
    proof {
        let c = seq![description, application, node_name];
        assert(c.drop_first() == seq![application, node_name]);
        assert(seq![application, node_name].drop_first() == seq![node_name]);
        assert(seq![node_name].drop_first().len() == 0);
        reveal_with_fuel(first_present, 4);
    }
    let app = match description {
        Some(d) => d,
        None => match application {
            Some(a) => a,
            None => match node_name {
                Some(n) => n,
                None => String::new(),
            },
        },
    };
    let media = match media {
        Some(m) => m,
        None => String::new(),
    };
    let serial = match serial {
        Some(s) => match parse_u64(s.as_str()) {
            Some(v) => v,
            None => id as u64,
        },
        None => id as u64,
    };
    CaptureNode { id, serial, app, media }
}

/// The byte range of a captured buffer's valid chunk: `size` bytes from
/// `offset`, cut to the `len` bytes actually mapped (empty when the offset
/// lies past them).
pub fn chunk_range(offset: usize, size: usize, len: usize) -> (r: (usize, usize))
    ensures
        r.0 <= r.1 <= len,
        r.1 == if offset + size < len { offset + size } else { len as int },
        r.0 == if offset < r.1 { offset as int } else { r.1 as int },
{
    let end = if offset < len && size < len - offset { offset + size } else { len };
    let start = if offset < end { offset } else { end };
    (start, end)
}

} // verus!
