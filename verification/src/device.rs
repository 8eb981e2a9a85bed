//! Audio device descriptions (outputs and inputs) and how the default device
//! is picked out of an enumeration.
use vstd::prelude::*;
use crate::capture::first_present;
use crate::text::{decimal, push_decimal, str_eq};

verus! {

#[derive(Debug, Clone, PartialEq)]
pub struct AudioDevice {
    /// Opaque, backend-stable id (PipeWire: object.serial; cpal: name).
    pub id: String,
    pub name: String,
    pub is_default: bool,
}

/// Whether a found node is the default one, by node name.
pub open spec fn marks_default(node_name: Seq<char>, default_name: Option<Seq<char>>) -> bool {
    match default_name {
        Some(d) => node_name == d,
        None => false,
    }
}

/// Keep the enumerated devices in order, flagging as default every one whose
/// node name matches the default node name (when one is known). A device
/// already flagged stays flagged.
pub fn mark_default(found: Vec<(AudioDevice, String)>, default_name: Option<String>) -> (r: Vec<AudioDevice>)
    ensures
        r@.len() == found@.len(),
        forall|i: int| 0 <= i < r@.len() ==> {
            &&& (#[trigger] r@[i]).id == found@[i].0.id
            &&& r@[i].name == found@[i].0.name
            &&& r@[i].is_default == (found@[i].0.is_default || marks_default(found@[i].1@,
                match default_name { Some(d) => Some(d@), None => None }))
        },
{
    let mut out: Vec<AudioDevice> = Vec::new();
    let mut found = found;
    let ghost orig = found@;
    let n = found.len();
    // consume from the back, then restore order
    let mut rev: Vec<AudioDevice> = Vec::new();
    while found.len() > 0
        invariant
            found@ == orig.take(found@.len() as int),
            found@.len() + rev@.len() == n,
            n == orig.len(),
            forall|k: int| 0 <= k < rev@.len() ==> {
                let src = orig[n - 1 - k];
                &&& (#[trigger] rev@[k]).id == src.0.id
                &&& rev@[k].name == src.0.name
                &&& rev@[k].is_default == (src.0.is_default || marks_default(src.1@,
                    match default_name { Some(d) => Some(d@), None => None }))
            },
        decreases found.len(),
    {
        let ghost before = found@;
        let (mut dev, node_name) = found.pop().unwrap();
        proof {
            assert(before.drop_last() == orig.take(before.len() - 1));
        }
        let is_match = match &default_name {
            Some(d) => node_name == *d,
            None => false,
        };
        if is_match {
            dev.is_default = true;
        }
        rev.push(dev);
    }
    while rev.len() > 0
        invariant
            rev@.len() + out@.len() == n,
            n == orig.len(),
            forall|k: int| 0 <= k < rev@.len() ==> {
                let src = orig[n - 1 - k];
                &&& (#[trigger] rev@[k]).id == src.0.id
                &&& rev@[k].name == src.0.name
                &&& rev@[k].is_default == (src.0.is_default || marks_default(src.1@,
                    match default_name { Some(d) => Some(d@), None => None }))
            },
            forall|i: int| 0 <= i < out@.len() ==> {
                &&& (#[trigger] out@[i]).id == orig[i].0.id
                &&& out@[i].name == orig[i].0.name
                &&& out@[i].is_default == (orig[i].0.is_default || marks_default(orig[i].1@,
                    match default_name { Some(d) => Some(d@), None => None }))
            },
        decreases rev.len(),
    {
        let dev = rev.pop().unwrap();
        out.push(dev);
    }
    out
}

/// The string member `name` of the JSON object that `raw` holds, when `raw`
/// is valid JSON, an object, with a member `name` whose value is a string.
pub uninterp spec fn json_name_member(raw: Seq<char>) -> Option<Seq<char>>;

/// Parses `raw` with `serde_json::from_str::<serde_json::Value>` and takes
/// the member `name` as a string. Claimed: the result is a function of `raw`
/// alone (named `json_name_member`), `None` when the parse fails, the value
/// is not an object, it has no member `name`, or that member is not a string.
#[verifier::external_body]
fn parse_name_member(raw: &str) -> (r: Option<String>)
    ensures
        match r {
            Some(s) => json_name_member(raw@) == Some(s@),
            None => json_name_member(raw@) is None,
        },
{
    let v: serde_json::Value = serde_json::from_str(raw).ok()?;
    v.get("name").and_then(|n| n.as_str()).map(|n| n.to_string())
}

/// A metadata name of `default`.
pub open spec fn names_default(metadata_name: Option<String>) -> bool {
    match metadata_name {
        Some(m) => m@ == "default"@,
        None => false,
    }
}

/// The node name that a default-device property value holds, if any.
pub open spec fn announced_name(value: Option<String>) -> Option<Seq<char>> {
    match value {
        Some(v) => json_name_member(v@),
        None => None,
    }
}

pub open spec fn opt_view(o: Option<String>) -> Option<Seq<char>> {
    match o {
        Some(s) => Some(s@),
        None => None,
    }
}

/// The default node name that a registry object announces: only the
/// metadata object named `default` does, through its property for the
/// default device (`value`), a JSON object such as `{"name":"alsa_output.x"}`
/// whose `name` member is the node name. Anything else announces none.
pub fn default_node_name(metadata_name: Option<String>, value: Option<String>) -> (r: Option<String>)
    ensures
        opt_view(r) == (if names_default(metadata_name) { announced_name(value) } else { None }),
{
    let is_default = match &metadata_name {
        Some(m) => str_eq(m.as_str(), "default"),
        None => false,
    };
    if !is_default {
        return None;
    }
    match value {
        Some(v) => parse_name_member(v.as_str()),
        None => None,
    }
}

/// A device found by a registry scan, with its `node.name` (empty when
/// absent) for matching the default. Its id is `object.serial`, or the
/// registry id in decimal when the serial is absent or empty; its name is
/// `node.description`, else `node.nick`, else `node.name`, else empty. It is
/// not marked default yet.
pub fn device_entry(
    global_id: u32,
    serial: Option<String>,
    description: Option<String>,
    nick: Option<String>,
    node_name: Option<String>,
) -> (r: (AudioDevice, String))
    ensures
        r.0.id@ == match serial {
            Some(s) => if s@.len() > 0 { s@ } else { decimal(global_id as nat) },
            None => decimal(global_id as nat),
        },
        r.0.name@ == match first_present(seq![description, nick, node_name]) {
            Some(s) => s@,
            None => Seq::<char>::empty(),
        },
        !r.0.is_default,
        r.1@ == match node_name {
            Some(n) => n@,
            None => Seq::<char>::empty(),
        },
{
    proof {
        let c = seq![description, nick, node_name];
        assert(c.drop_first() == seq![nick, node_name]);
        assert(seq![nick, node_name].drop_first() == seq![node_name]);
        assert(seq![node_name].drop_first().len() == 0);
        reveal_with_fuel(first_present, 4);
    }
    let node = match &node_name {
        Some(n) => n.clone(),
        None => String::new(),
    };
    let name = match description {
        Some(d) => d,
        None => match nick {
            Some(k) => k,
            None => match node_name {
                Some(n) => n,
                None => String::new(),
            },
        },
    };
    let id = match serial {
        Some(s) => if s.as_str().unicode_len() > 0 {
            s
        } else {
            let mut t = String::new();
            push_decimal(&mut t, global_id as u64);
            t
        },
        None => {
            let mut t = String::new();
            push_decimal(&mut t, global_id as u64);
            t
        },
    };
    (AudioDevice { id, name, is_default: false }, node)
}

} // verus!
