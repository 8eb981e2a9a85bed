//! Plain-JSON sidecars mirrored next to an audio file: `<audio path>.earworm.json`.
use vstd::prelude::*;
use crate::text::{chars_of, push_str, string_of};

verus! {

pub open spec fn sidecar_suffix() -> Seq<char> {
    ".earworm.json"@
}

/// The sidecar for `audio_path`: the same path with `.earworm.json` appended
/// (the audio file's own extension is kept).
pub fn sidecar_path(audio_path: &str) -> (r: String)
    ensures
        r@ == audio_path@ + sidecar_suffix(),
{
    let mut s = string_of(&chars_of(audio_path));
    push_str(&mut s, ".earworm.json");
    s
}

} // verus!
