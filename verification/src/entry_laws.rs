//! What holds of manifest files and of lookups in a manifest, told by the
//! texts and the entries they are made from.

use vstd::prelude::*;
use crate::edge_laws::{lacks, names_what_is_lacking};
use crate::manifest::{capped, covers, entries_of, entry_line, first_version, ids, is_named, line_entry, listed_features, manifest_lines, missing, path_like, paths, shortfall, versions, Artifact, Id};
use crate::order::{ascending, pair_precedes, text_precedes};
use crate::text::{join, lemma_split_of_join, split};
use crate::text_laws::{a_text_is_cut_at_the_first, ascending_pairs_are_in_order, ascending_texts_are_in_order};

verus! {

/// A field is taken for a path when it holds a separator of either host or
/// ends like a library or its metadata.
pub proof fn a_field_is_a_path_by_its_looks(field: Seq<char>)
    ensures
        path_like(field) <==> {
            ||| exists|i: int| 0 <= i < field.len() && (#[trigger] field[i]) == '/'
            ||| exists|i: int| 0 <= i < field.len() && (#[trigger] field[i]) == '\\'
            ||| exists|stem: Seq<char>| field == #[trigger] (stem + ".rlib"@)
            ||| exists|stem: Seq<char>| field == #[trigger] (stem + ".rmeta"@)
        },
{
    lemma_suffix(field, ".rlib"@);
    lemma_suffix(field, ".rmeta"@);
}

proof fn lemma_suffix(s: Seq<char>, end: Seq<char>)
    ensures
        end.is_suffix_of(s) <==> exists|stem: Seq<char>| s == #[trigger] (stem + end),
{
    if end.is_suffix_of(s) {
        let stem = s.take(s.len() - end.len());
        assert(s =~= stem + end);
    }
    if exists|stem: Seq<char>| s == #[trigger] (stem + end) {
        let stem = choose|stem: Seq<char>| s == #[trigger] (stem + end);
        assert(s.subrange(s.len() - end.len(), s.len() as int) =~= end);
    }
}

/// The features of a field are the texts between its commas, the empty ones
/// left out; a dash alone lists none.
pub proof fn features_stand_between_commas(parts: Seq<Seq<char>>)
    requires
        parts.len() > 0,
        forall|i: int| 0 <= i < parts.len() ==> !(#[trigger] parts[i]).contains(','),
    ensures
        join(parts, seq![',']) != seq!['-'] ==> forall|f: Seq<char>| #[trigger]
            listed_features(join(parts, seq![','])).contains(f) <==> f.len() > 0 && parts.contains(
                f,
            ),
        listed_features(seq!['-']) == Set::<Seq<char>>::empty(),
{
    reveal_strlit("-");
    assert("-"@ =~= seq!['-']);
    let field = join(parts, seq![',']);
    lemma_split_of_join(parts, ',');
    if field != seq!['-'] {
        assert forall|f: Seq<char>| #[trigger] listed_features(field).contains(f) <==> f.len() > 0
            && parts.contains(f) by {
            assert(split(field, ',').to_set().contains(f) <==> parts.contains(f));
            if f.len() == 0 {
                assert(f =~= seq![]);
            }
        }
    }
}

/// A line gives the crate, the version and, behind the features, the path, to
/// the end of the line.
pub proof fn a_line_gives_crate_features_and_path(
    name: Seq<char>,
    version: Seq<char>,
    field: Seq<char>,
    path: Seq<char>,
)
    requires
        !name.contains(' '),
        !version.contains(' '),
        !field.contains(' '),
        !path_like(field),
    ensures
        line_entry(
            name + seq![' '] + (version + seq![' '] + (field + seq![' '] + path)),
        ) == Some(((name, version), Artifact { features: listed_features(field), path })),
{
    let last = field + seq![' '] + path;
    let rest = version + seq![' '] + last;
    a_text_is_cut_at_the_first(name, ' ', rest);
    a_text_is_cut_at_the_first(version, ' ', last);
    a_text_is_cut_at_the_first(field, ' ', path);
}

/// A line of the older form has no features, and its path is all that follows
/// the version.
pub proof fn a_line_without_features_gives_the_path(
    name: Seq<char>,
    version: Seq<char>,
    field: Seq<char>,
    more: Seq<char>,
)
    requires
        !name.contains(' '),
        !version.contains(' '),
        !field.contains(' '),
    ensures
        line_entry(name + seq![' '] + (version + seq![' '] + field)) == Some(
            ((name, version), Artifact { features: Set::empty(), path: field }),
        ),
        path_like(field) ==> line_entry(
            name + seq![' '] + (version + seq![' '] + (field + seq![' '] + more)),
        ) == Some(
            (
                (name, version),
                Artifact { features: Set::empty(), path: field + seq![' '] + more },
            ),
        ),
{
    let long = field + seq![' '] + more;
    a_text_is_cut_at_the_first(name, ' ', version + seq![' '] + field);
    a_text_is_cut_at_the_first(version, ' ', field);
    a_text_is_cut_at_the_first(field, ' ', more);
    a_text_is_cut_at_the_first(name, ' ', version + seq![' '] + long);
    a_text_is_cut_at_the_first(version, ' ', long);
}

/// A line without two spaces gives nothing.
pub proof fn a_line_needs_three_fields(name: Seq<char>, version: Seq<char>)
    requires
        !name.contains(' '),
        !version.contains(' '),
    ensures
        line_entry(name) is None,
        line_entry(name + seq![' '] + version) is None,
{
    a_text_is_cut_at_the_first(name, ' ', version);
    a_text_is_cut_at_the_first(version, ' ', name);
}

/// A file loads exactly when each of its lines gives an entry; otherwise the
/// first that gives none is the error. Of two lines for a crate the later
/// one counts.
pub proof fn a_file_loads_when_every_line_does(ls: Seq<Seq<char>>)
    ensures
        match entries_of(ls) {
            Ok(m) => {
                &&& forall|i: int| 0 <= i < ls.len() ==> line_entry(#[trigger] ls[i]) is Some
                &&& forall|id: Id| #[trigger]
                    m.dom().contains(id) ==> exists|i: int| #[trigger]
                        is_last_for(ls, id, i) && line_entry(ls[i]) == Some((id, m[id]))
                &&& forall|i: int|
                    0 <= i < ls.len() ==> m.dom().contains(
                        (#[trigger] line_entry(ls[i]))->Some_0.0,
                    )
            },
            Err(line) => exists|i: int|
                0 <= i < ls.len() && (#[trigger] ls[i]) == line && line_entry(line) is None && forall|
                    j: int,
                |
                    0 <= j < i ==> line_entry(#[trigger] ls[j]) is Some,
        },
    decreases ls.len(),
{
    if ls.len() > 0 {
        let init = ls.drop_last();
        let last = ls.len() - 1;
        a_file_loads_when_every_line_does(init);
        match entries_of(init) {
            Err(line) => {
                let i = choose|i: int|
                    0 <= i < init.len() && (#[trigger] init[i]) == line && line_entry(line) is None
                        && forall|j: int| 0 <= j < i ==> line_entry(#[trigger] init[j]) is Some;
                assert(ls[i] == line);
                assert forall|j: int| 0 <= j < i implies line_entry(#[trigger] ls[j]) is Some by {
                    assert(init[j] == ls[j]);
                }
            },
            Ok(before) => match line_entry(ls[last]) {
                None => {
                    assert forall|j: int| 0 <= j < last implies line_entry(
                        #[trigger] ls[j],
                    ) is Some by {
                        assert(init[j] == ls[j]);
                    }
                },
                Some((id, artifact)) => {
                    let m = before.insert(id, artifact);
                    assert forall|i: int| 0 <= i < ls.len() implies line_entry(
                        #[trigger] ls[i],
                    ) is Some by {
                        if i < last {
                            assert(init[i] == ls[i]);
                        }
                    }
                    assert forall|k: Id| #[trigger] m.dom().contains(k) implies exists|i: int|
                     #[trigger]
                        is_last_for(ls, k, i) && line_entry(ls[i]) == Some((k, m[k])) by {
                        if k == id {
                            assert(is_last_for(ls, k, last));
                        } else {
                            assert(before.dom().contains(k));
                            let i = choose|i: int| #[trigger]
                                is_last_for(init, k, i) && line_entry(init[i]) == Some(
                                    (k, before[k]),
                                );
                            assert(init[i] == ls[i]);
                            assert forall|j: int| i < j < ls.len() implies (match line_entry(
                                #[trigger] ls[j],
                            ) {
                                Some(e) => e.0 != k,
                                None => true,
                            }) by {
                                if j < last {
                                    assert(init[j] == ls[j]);
                                }
                            }
                            assert(is_last_for(ls, k, i));
                        }
                    }
                    assert forall|i: int| 0 <= i < ls.len() implies m.dom().contains(
                        (#[trigger] line_entry(ls[i]))->Some_0.0,
                    ) by {
                        if i < last {
                            assert(init[i] == ls[i]);
                            assert(before.dom().contains(line_entry(init[i])->Some_0.0));
                        }
                    }
                },
            },
        }
    }
}

/// Whether a line is the last that gives an entry for a crate.
pub open spec fn is_last_for(ls: Seq<Seq<char>>, id: Id, i: int) -> bool {
    &&& 0 <= i < ls.len()
    &&& line_entry(ls[i]) matches Some(e) && e.0 == id
    &&& forall|j: int|
        i < j < ls.len() ==> match line_entry(#[trigger] ls[j]) {
            Some(e) => e.0 != id,
            None => true,
        }
}

/// How an entry is written: the crate, the version, the features in
/// dictionary order with commas between them, or a dash for none, and the
/// path, with one space between each two.
pub proof fn an_entry_is_written_field_by_field(id: Id, artifact: Artifact, list: Seq<Seq<char>>)
    requires
        artifact.features.finite(),
        forall|f: Seq<char>| list.contains(f) <==> artifact.features.contains(f),
        forall|i: int, j: int| 0 <= i < j < list.len() ==> text_precedes(list[i], list[j]),
    ensures
        entry_line(id, artifact) == id.0 + seq![' '] + id.1 + seq![' '] + (if list.len() == 0 {
            seq!['-']
        } else {
            join(list, seq![','])
        }) + seq![' '] + artifact.path,
{
    reveal_strlit(" ");
    reveal_strlit("-");
    reveal_strlit(",");
    assert(" "@ =~= seq![' ']);
    assert("-"@ =~= seq!['-']);
    assert(","@ =~= seq![',']);
    let features = artifact.features;
    assert(list.to_set() =~= features) by {
        assert forall|f: Seq<char>| list.to_set().contains(f) <==> features.contains(f) by {
            assert(list.to_set().contains(f) <==> list.contains(f));
        }
    }
    assert(crate::order::ascends::<String>(list)) by {
        assert forall|i: int, j: int| 0 <= i < j < list.len() implies <String as
            crate::order::Ordered>::precedes(list[i], list[j]) by {
            assert(text_precedes(list[i], list[j]));
        }
    }
    crate::order::lemma_ascending_is::<String>(list);
    if list.len() == 0 {
        assert forall|f: Seq<char>| !features.contains(f) by {
            assert(!list.contains(f));
        }
        assert(features =~= Set::<Seq<char>>::empty());
    } else {
        assert(features.contains(list[0]));
    }
}

/// A manifest file has one line for each entry, in order of names, then of
/// versions.
pub proof fn a_manifest_is_written_entry_by_entry(m: Map<Id, Artifact>)
    requires
        m.dom().finite(),
    ensures
        manifest_lines(m).len() == ids(m).len(),
        paths(m).len() == ids(m).len(),
        forall|i: int|
            0 <= i < ids(m).len() ==> (#[trigger] manifest_lines(m)[i]) == entry_line(
                ids(m)[i],
                m[ids(m)[i]],
            ),
        forall|i: int| 0 <= i < ids(m).len() ==> (#[trigger] paths(m)[i]) == m[ids(m)[i]].path,
        forall|id: Id| ids(m).contains(id) <==> m.dom().contains(id),
        forall|i: int, j: int|
            0 <= i < j < ids(m).len() ==> pair_precedes(#[trigger] ids(m)[i], #[trigger] ids(m)[j]),
{
    ascending_pairs_are_in_order(m.dom());
}

/// A build covers features when it has each of them, and is short of exactly
/// those that it has not.
pub proof fn a_build_covers_what_it_has(m: Map<Id, Artifact>, id: Id, wanted: Set<Seq<char>>)
    requires
        wanted.finite(),
    ensures
        covers(m, id, wanted) <==> m.dom().contains(id) && forall|f: Seq<char>| #[trigger]
            wanted.contains(f) ==> m[id].features.contains(f),
        m.dom().contains(id) ==> names_what_is_lacking(m, id, wanted, shortfall(m, id, wanted)),
        !m.dom().contains(id) ==> shortfall(m, id, wanted).len() == 0,
{
    reveal_strlit(",");
    assert(","@ =~= seq![',']);
    let gap = wanted.difference(m[id].features);
    ascending_texts_are_in_order(gap);
    let list = ascending::<String>(gap);
    assert forall|f: Seq<char>| list.contains(f) <==> lacks(m, id, wanted, f) by {
        assert(gap.contains(f) <==> lacks(m, id, wanted, f));
    }
    assert(join(list, seq![',']) == join(list, ","@));
}

/// The versions of a crate are the entries of its name, and the lookup by
/// name alone finds the first of them in order.
pub proof fn a_crate_is_found_at_its_first_version(m: Map<Id, Artifact>, name: Seq<char>)
    requires
        m.dom().finite(),
    ensures
        forall|id: Id| #[trigger]
            versions(m, name).contains(id) <==> m.dom().contains(id) && id.0 == name,
        match first_version(m, name) {
            Some(id) => m.dom().contains(id) && id.0 == name && forall|other: Id| #[trigger]
                m.dom().contains(other) && other.0 == name && other != id ==> text_precedes(
                    id.1,
                    other.1,
                ),
            None => forall|id: Id| #[trigger] m.dom().contains(id) ==> id.0 != name,
        },
{
    let all = ids(m);
    ascending_pairs_are_in_order(m.dom());
    let pred = is_named(name);
    let found = all.filter(pred);
    lemma_first_of_filter(all, pred);
    if found.len() > 0 {
        let id = found[0];
        let k = choose|k: int|
            0 <= k < all.len() && all[k] == id && pred(id) && forall|j: int|
                0 <= j < k ==> !pred(#[trigger] all[j]);
        assert(all.contains(id));
        assert forall|other: Id| #[trigger]
            m.dom().contains(other) && other.0 == name && other != id implies text_precedes(
            id.1,
            other.1,
        ) by {
            assert(all.contains(other));
            let j = choose|j: int| 0 <= j < all.len() && all[j] == other;
            if j < k {
                assert(!pred(all[j]));
            }
            assert(pair_precedes(all[k], all[j]));
        }
    } else {
        assert forall|id: Id| #[trigger] m.dom().contains(id) implies id.0 != name by {
            assert(all.contains(id));
            let j = choose|j: int| 0 <= j < all.len() && all[j] == id;
            assert(!pred(all[j]));
        }
    }
}

/// The first element that a filter keeps is the first that passes it.
proof fn lemma_first_of_filter(s: Seq<Id>, pred: spec_fn(Id) -> bool)
    ensures
        s.filter(pred).len() > 0 ==> exists|k: int|
            0 <= k < s.len() && (#[trigger] s[k]) == s.filter(pred)[0] && pred(s.filter(pred)[0])
                && forall|j: int| 0 <= j < k ==> !pred(#[trigger] s[j]),
        s.filter(pred).len() == 0 ==> forall|j: int| 0 <= j < s.len() ==> !pred(#[trigger] s[j]),
    decreases s.len(),
{
    reveal(Seq::filter);
    if s.len() > 0 {
        let init = s.drop_last();
        lemma_first_of_filter(init, pred);
        let kept = init.filter(pred);
        let last = s.len() - 1;
        if kept.len() > 0 {
            let k = choose|k: int|
                0 <= k < init.len() && (#[trigger] init[k]) == kept[0] && pred(kept[0]) && forall|
                    j: int,
                |
                    0 <= j < k ==> !pred(#[trigger] init[j]);
            assert(s[k] == kept[0]);
            assert(s.filter(pred)[0] == kept[0]);
            assert forall|j: int| 0 <= j < k implies !pred(#[trigger] s[j]) by {
                assert(init[j] == s[j]);
            }
        } else {
            assert forall|j: int| 0 <= j < last implies !pred(#[trigger] s[j]) by {
                assert(init[j] == s[j]);
            }
            if pred(s[last]) {
                assert(s.filter(pred)[0] == s[last]);
            }
        }
    }
}

/// Whether an entry is given by an absolute path that is not there.
pub open spec fn is_gone(
    m: Map<Id, Artifact>,
    absolute: Seq<bool>,
    existing: Seq<Seq<char>>,
    i: int,
) -> bool {
    absolute[i] && !existing.contains(m[ids(m)[i]].path)
}

/// The entries that are gone are reported by name and version, all of them
/// and no others, in their order; a limit cuts the list off behind.
pub proof fn what_is_gone_is_reported(
    m: Map<Id, Artifact>,
    absolute: Seq<bool>,
    existing: Seq<Seq<char>>,
    n: int,
    more: int,
    limit: int,
)
    requires
        0 <= n <= more <= ids(m).len(),
        0 <= limit,
    ensures
        missing(m, absolute, existing, n).is_prefix_of(missing(m, absolute, existing, more)),
        n < more ==> missing(m, absolute, existing, n + 1).len() == missing(
            m,
            absolute,
            existing,
            n,
        ).len() + if is_gone(m, absolute, existing, n) {
            1int
        } else {
            0int
        },
        n < more && is_gone(m, absolute, existing, n) ==> missing(
            m,
            absolute,
            existing,
            n + 1,
        ).last() == ids(m)[n].0 + seq![' '] + ids(m)[n].1,
        missing(m, absolute, existing, 0).len() == 0,
        ({
            let all = missing(m, absolute, existing, more);
            let some = capped(all, limit);
            some.is_prefix_of(all) && some.len() == if all.len() <= limit {
                all.len() as int
            } else {
                limit
            }
        }),
    decreases more - n,
{
    reveal_strlit(" ");
    assert(" "@ =~= seq![' ']);
    let a = missing(m, absolute, existing, n);
    let all = missing(m, absolute, existing, more);
    if n < more {
        what_is_gone_is_reported(m, absolute, existing, n + 1, more, limit);
        let b = missing(m, absolute, existing, n + 1);
        assert(a =~= b.subrange(0, a.len() as int));
        assert(a =~= all.subrange(0, a.len() as int));
    } else {
        assert(a =~= all.subrange(0, a.len() as int));
    }
    let some = capped(all, limit);
    assert(some =~= all.subrange(0, some.len() as int));
}

} // verus!
