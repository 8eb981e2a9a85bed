//! Song bundles: one folder per song under the library root, named after the
//! song, holding the audio and a `dredge.json` manifest.
use vstd::prelude::*;
use crate::text::{char_is_control, chars_of, contains_string, decimal, is_control, lemma_strip_keeps, push_decimal, string_of,
    strip, strip_char, trim, trim_chars, ws};

verus! {

pub const MANIFEST_VERSION: u32 = 1;

/// Highest numeric suffix tried before a bundle name gives up on being unique.
pub const MAX_BUNDLE_SUFFIX: u64 = 99_999;

/// The separator between title and artist in a bundle name: ` — `.
pub open spec fn title_artist_sep() -> Seq<char> {
    seq![' ', '\u{2014}', ' ']
}

/// `Title — Artist` with both parts trimmed, or just the trimmed title when the
/// artist is absent or blank.
pub open spec fn slug_base(title: Seq<char>, artist: Option<Seq<char>>) -> Seq<char> {
    match artist {
        Some(a) => if trim(a).len() > 0 {
            trim(title) + title_artist_sep() + trim(a)
        } else {
            trim(title)
        },
        None => trim(title),
    }
}

/// Path-hostile characters (`/`, `\`, NUL and control characters) become `_`.
pub open spec fn clean_char(c: char) -> char {
    if c == '/' || c == '\\' || c == '\0' || char_is_control(c) {
        '_'
    } else {
        c
    }
}

pub open spec fn dots() -> spec_fn(char) -> bool {
    |c: char| c == '.'
}

/// The cleaned name before the empty-name fallback: path-hostile characters
/// replaced, then whitespace, dots and whitespace again stripped from both ends.
pub open spec fn slug_cleaned(title: Seq<char>, artist: Option<Seq<char>>) -> Seq<char> {
    trim(strip(trim(slug_base(title, artist).map_values(|c: char| clean_char(c))), dots()))
}

pub open spec fn untitled() -> Seq<char> {
    seq!['u', 'n', 't', 'i', 't', 'l', 'e', 'd']
}

/// A name that stands for a directory itself or its parent.
pub open spec fn is_dot_name(s: Seq<char>) -> bool {
    s == seq!['.'] || s == seq!['.', '.']
}

/// A human-readable, filesystem-safe folder name; never empty, and never `.`
/// or `..` (which would name the library root or its parent): those, like an
/// empty name, become `untitled`.
pub open spec fn spec_slug(title: Seq<char>, artist: Option<Seq<char>>) -> Seq<char> {
    let cleaned = slug_cleaned(title, artist);
    if cleaned.len() == 0 || is_dot_name(cleaned) {
        untitled()
    } else {
        cleaned
    }
}

/// `c` may stand in a folder name: no path separator, NUL or control
/// character.
pub open spec fn name_safe(c: char) -> bool {
    c != '/' && c != '\\' && c != '\0' && !char_is_control(c)
}

/// A slug is a safe folder name: never empty, never `.` or `..`, and free of
/// path separators, NUL and control characters.
pub proof fn lemma_slug_is_safe(title: Seq<char>, artist: Option<Seq<char>>)
    ensures
        spec_slug(title, artist).len() > 0,
        !is_dot_name(spec_slug(title, artist)),
        forall|i: int| 0 <= i < spec_slug(title, artist).len() ==> name_safe(#[trigger] spec_slug(title, artist)[i]),
{
    let safe = |c: char| name_safe(c);
    let m = slug_base(title, artist).map_values(|c: char| clean_char(c));
    assert forall|i: int| 0 <= i < m.len() implies safe(#[trigger] m[i]) by {}
    lemma_strip_keeps(m, ws(), safe);
    let t1 = trim(m);
    lemma_strip_keeps(t1, dots(), safe);
    let t2 = strip(t1, dots());
    lemma_strip_keeps(t2, ws(), safe);
    let u = untitled();
    assert forall|i: int| 0 <= i < u.len() implies safe(#[trigger] u[i]) by {
        assert(u[i] == 'u' || u[i] == 'n' || u[i] == 't' || u[i] == 'i' || u[i] == 'l' || u[i] == 'e' || u[i] == 'd');
    }
    assert(!is_dot_name(u)) by {
        assert(u[0] == 'u');
        assert(seq!['.'][0] == '.');
        assert(seq!['.', '.'][0] == '.');
    }
}

pub open spec fn opt_view(a: Option<&str>) -> Option<Seq<char>> {
    match a {
        Some(s) => Some(s@),
        None => None,
    }
}

/// A human-readable, filesystem-safe folder name: `Title — Artist` (or just
/// `Title`). Replaces path-hostile characters with `_`; never empty, `.` or
/// `..` (those become `untitled`).
pub fn slug(title: &str, artist: Option<&str>) -> (r: String)
    ensures
        r@ == spec_slug(title@, opt_view(artist)),
        r@.len() > 0,
{
    let t = trim_chars(&chars_of(title));
    let mut base: Vec<char> = t;
    match artist {
        Some(a) => {
            let ta = trim_chars(&chars_of(a));
            if ta.len() > 0 {
                base.push(' ');
                base.push('\u{2014}');
                base.push(' ');
                let mut k: usize = 0;
                let ghost pre = base@;
                while k < ta.len()
                    invariant
                        k <= ta.len(),
                        base@ == pre + ta@.take(k as int),
                    decreases ta.len() - k,
                {
                    base.push(ta[k]);
                    proof {
                        assert(ta@.take(k + 1) == ta@.take(k as int).push(ta@[k as int]));
                    }
                    k = k + 1;
                }
                proof {
                    assert(ta@.take(ta.len() as int) == ta@);
                    assert(pre == trim(title@) + title_artist_sep());
                }
            }
        }
        None => {}
    }
    assert(base@ == slug_base(title@, opt_view(artist)));
    let mut cleaned: Vec<char> = Vec::new();
    let mut i: usize = 0;
    while i < base.len()
        invariant
            i <= base.len(),
            cleaned@ == base@.take(i as int).map_values(|c: char| clean_char(c)),
        decreases base.len() - i,
    {
        let c = base[i];
        let d = if c == '/' || c == '\\' || c == '\0' || is_control(c) {
            '_'
        } else {
            c
        };
        cleaned.push(d);
        proof {
            assert(base@.take(i + 1) == base@.take(i as int).push(c));
            assert(base@.take(i + 1).map_values(|c: char| clean_char(c))
                == base@.take(i as int).map_values(|c: char| clean_char(c)).push(clean_char(c)));
        }
        i = i + 1;
    }
    proof {
        assert(base@.take(base.len() as int) == base@);
    }
    let a = trim_chars(&cleaned);
    let b = strip_char(&a, '.');
    proof {
        assert((|c: char| c == '.') == dots());
    }
    let c = trim_chars(&b);
    let dot_name = (c.len() == 1 && c[0] == '.') || (c.len() == 2 && c[0] == '.' && c[1] == '.');
    proof {
        assert(seq!['.'][0] == '.');
        assert(seq!['.', '.'][0] == '.' && seq!['.', '.'][1] == '.');
        if c@.len() == 1 && c@[0] == '.' {
            assert(c@ =~= seq!['.']);
        }
        if c@.len() == 2 && c@[0] == '.' && c@[1] == '.' {
            assert(c@ =~= seq!['.', '.']);
        }
    }
    assert(dot_name == is_dot_name(c@));
    if c.len() == 0 || dot_name {
        let mut s = String::new();
        s.push('u');
        s.push('n');
        s.push('t');
        s.push('i');
        s.push('t');
        s.push('l');
        s.push('e');
        s.push('d');
        assert(s@ == untitled());
        s
    } else {
        string_of(&c)
    }
}

/// The `n`-th candidate folder name for `slug`: the slug itself first, then
/// `slug-2`, `slug-3`, ….
pub open spec fn bundle_candidate(slug: Seq<char>, n: nat) -> Seq<char> {
    if n <= 1 {
        slug
    } else {
        slug + seq!['-'] + decimal(n)
    }
}

/// The folder name `unique_bundle_dir` picks: the first candidate (from 1 up
/// to the suffix limit) not already taken, else the bare slug.
pub open spec fn spec_unique_bundle_name(slug: Seq<char>, taken: Seq<Seq<char>>) -> Seq<char> {
    if exists|n: nat| 1 <= n <= MAX_BUNDLE_SUFFIX && !taken.contains(#[trigger] bundle_candidate(slug, n)) {
        bundle_candidate(slug, first_free(slug, taken))
    } else {
        slug
    }
}

/// The smallest candidate number in range whose name is not taken.
pub open spec fn first_free(slug: Seq<char>, taken: Seq<Seq<char>>) -> nat {
    choose|n: nat| 1 <= n <= MAX_BUNDLE_SUFFIX
        && !taken.contains(#[trigger] bundle_candidate(slug, n))
        && forall|m: nat| 1 <= m < n ==> taken.contains(#[trigger] bundle_candidate(slug, m))
}

/// The folder name for a new bundle: `slug`, or `slug-2`, `slug-3`, … when
/// earlier names are already `taken` by entries in the library root. Falls
/// back to the bare slug when every suffix up to the limit is taken.
pub fn unique_bundle_dir(slug: &str, taken: &Vec<String>) -> (r: String)
    ensures
        r@ == spec_unique_bundle_name(slug@, taken@.map_values(|x: String| x@)),
        (exists|n: nat| 1 <= n <= MAX_BUNDLE_SUFFIX && !taken@.map_values(|x: String| x@).contains(
            #[trigger] bundle_candidate(slug@, n),
        )) ==> !taken@.map_values(|x: String| x@).contains(r@),
{
    let ghost names = taken@.map_values(|x: String| x@);
    let ghost sl = slug@;
    let base = string_of(&chars_of(slug));
    if !contains_string(taken.as_slice(), &base) {
        proof {
            assert(bundle_candidate(sl, 1) == sl);
            assert(first_free(sl, names) == 1) by {
                let n = first_free(sl, names);
                assert(!names.contains(bundle_candidate(sl, 1)));
                if n > 1 {
                    assert(names.contains(bundle_candidate(sl, 1)));
                }
            }
        }
        return base;
    }
    let mut n: u64 = 2;
    while n <= MAX_BUNDLE_SUFFIX
        invariant
            2 <= n <= MAX_BUNDLE_SUFFIX + 1,
            names == taken@.map_values(|x: String| x@),
            sl == slug@,
            forall|m: nat| 1 <= m < n ==> names.contains(#[trigger] bundle_candidate(sl, m)),
        decreases MAX_BUNDLE_SUFFIX + 1 - n,
    {
        let mut cand = string_of(&chars_of(slug));
        cand.push('-');
        push_decimal(&mut cand, n);
        assert(cand@ == bundle_candidate(sl, n as nat));
        if !contains_string(taken.as_slice(), &cand) {
            proof {
                let f = first_free(sl, names);
                assert(1 <= n <= MAX_BUNDLE_SUFFIX && !names.contains(bundle_candidate(sl, n as nat)));
                if f < n {
                    assert(names.contains(bundle_candidate(sl, f)));
                } else if f > n {
                    assert(names.contains(bundle_candidate(sl, n as nat)));
                }
            }
            return cand;
        }
        n = n + 1;
    }
    proof {
        assert forall|m: nat| 1 <= m <= MAX_BUNDLE_SUFFIX implies names.contains(#[trigger] bundle_candidate(sl, m)) by {
        }
    }
    base
}

} // verus!
