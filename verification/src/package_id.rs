//! Cargo package ids.
//!
//! A registry id carries `name@version` behind its last `#`
//! (`registry+https://...#glam@0.32.1`). A path id carries the version alone
//! there, and its name is the last segment of the path
//! (`path+file:///home/u/my-game#0.1.0`).

use vstd::prelude::*;
use vstd::string::StrSliceExecFns;

use crate::text::{chars_of, cut_last, last_index, lemma_last_index, lemma_last_index_is, replace, replaced, rsplit_once};

verus! {

/// The version that a package id ends in.
pub open spec fn id_version(id: Seq<char>) -> Option<Seq<char>> {
    match rsplit_once(id, '#') {
        Some((_, fragment)) => match rsplit_once(fragment, '@') {
            Some((_, version)) => Some(version),
            None => Some(fragment),
        },
        None => None,
    }
}

/// The package name as cargo spells it.
pub open spec fn id_raw_name(id: Seq<char>) -> Option<Seq<char>> {
    match rsplit_once(id, '#') {
        Some((base, fragment)) => match rsplit_once(fragment, '@') {
            Some((name, _)) => Some(name),
            None => Some(base.skip(last_index(base, '/') + 1)),
        },
        None => None,
    }
}

/// A package name as rustc spells it: dashes are underscores.
pub open spec fn crate_name(name: Seq<char>) -> Seq<char> {
    replace(name, '-', '_')
}

/// The package name as rustc spells it.
pub open spec fn id_name(id: Seq<char>) -> Option<Seq<char>> {
    match id_raw_name(id) {
        Some(name) => Some(crate_name(name)),
        None => None,
    }
}

/// Where the text behind the last `c` between `from` and `end` starts; `from`
/// when there is none.
fn after_last(cs: &Vec<char>, from: usize, end: usize, c: char) -> (r: usize)
    requires
        from <= end <= cs.len(),
    ensures
        from <= r <= end,
        r - from == last_index(cs@.subrange(from as int, end as int), c) + 1,
{
    let mut i: usize = end;
    while i > from && cs[i - 1] != c
        invariant
            from <= i <= end <= cs.len(),
            forall|j: int| i <= j < end ==> cs@[j] != c,
        decreases i,
    {
        i = i - 1;
    }
    proof {
        lemma_last_index_is(cs@.subrange(from as int, end as int), c, i - from - 1);
    }
    i
}

/// The version embedded in a package id.
pub fn package_id_version(id: &str) -> (r: Option<&str>)
    ensures
        match id_version(id@) {
            Some(v) => r matches Some(s) && s@ == v,
            None => r is None,
        },
{
    let cs = chars_of(id);
    let n: usize = cs.len();
    assert(cs@.subrange(0, n as int) == id@);
    let hash = after_last(&cs, 0, n, '#');
    if hash == 0 {
        return None;
    }
    assert(cs@.subrange(hash as int, n as int) == id@.skip(hash as int));
    let start = after_last(&cs, hash, n, '@');
    assert(id@.subrange(start as int, n as int) == id@.skip(hash as int).skip(start - hash));
    assert(id@.skip(hash as int).skip(0) == id@.skip(hash as int));
    Some(id.substring_char(start, n))
}

/// The package name embedded in a package id, exactly as cargo spells it.
pub fn package_id_raw_name(id: &str) -> (r: Option<String>)
    ensures
        match id_raw_name(id@) {
            Some(v) => r matches Some(s) && s@ == v,
            None => r is None,
        },
{
    match cut_last(id, '#') {
        Some((base, fragment)) => match cut_last(&fragment, '@') {
            Some((name, _)) => Some(name),
            None => {
                proof {
                    lemma_last_index(base@, '/');
                    assert(last_index(base@, '/') == -1 ==> base@.skip(0) == base@);
                }
                match cut_last(&base, '/') {
                    Some((_, name)) => Some(name),
                    None => Some(base),
                }
            },
        },
        None => None,
    }
}

/// The package name embedded in a package id, normalized to underscores.
pub fn package_id_name(id: &str) -> (r: Option<String>)
    ensures
        match id_name(id@) {
            Some(v) => r matches Some(s) && s@ == v,
            None => r is None,
        },
{
    match package_id_raw_name(id) {
        Some(name) => Some(replaced(&name, '-', '_')),
        None => None,
    }
}

} // verus!
