//! What holds of manifests as a whole.

use vstd::prelude::*;

use crate::host::{absolute_on, has_colon, is_letter, is_slash, shared};
use crate::manifest::{absolute_answers, capped, covers, entries_of, entry_line, feature_field, field_artifact, first_version, follow_rule, ids, is_named, line_entry, listed_features, manifest_lines, missing, only_version, path_like, paths, shortfall, versions, Artifact, Id, SdkManifest};
use crate::order::{ascending, lemma_ascending};
use crate::text::{is_line, join, lemma_cut_at, lemma_cut_parts, lemma_lines_of_terminated_cr, lemma_lines_whole, lemma_split_of_join, lemma_split_pieces, lines, split, split_once, strip_cr, terminated};

verus! {

/// A name or version that can stand in a manifest line.
pub open spec fn portable_word(s: Seq<char>) -> bool {
    !s.contains(' ') && !s.contains('\n')
}

/// Features that can be told apart when they are listed with commas, and
/// whose list is neither a path nor the mark for none.
pub open spec fn portable_features(features: Set<Seq<char>>) -> bool {
    features == Set::<Seq<char>>::empty() || {
        &&& features != set!["-"@]
        &&& !path_like(feature_field(features))
        &&& forall|f: Seq<char>| #[trigger]
            features.contains(f) ==> f.len() > 0 && portable_word(f) && !f.contains(',')
    }
}

/// An entry that a manifest line can hold.
pub open spec fn portable(id: Id, artifact: Artifact) -> bool {
    &&& portable_word(id.0)
    &&& portable_word(id.1)
    &&& portable_features(artifact.features)
    &&& is_line(artifact.path)
}

/// A feature list without spaces or line feeds, when no feature has one.
proof fn lemma_joined_chars(parts: Seq<Seq<char>>, sep: Seq<char>, d: char)
    requires
        !sep.contains(d),
        forall|i: int| 0 <= i < parts.len() ==> !(#[trigger] parts[i]).contains(d),
    ensures
        !join(parts, sep).contains(d),
    decreases parts.len(),
{
    if parts.len() > 1 {
        let init = parts.drop_last();
        assert forall|i: int| 0 <= i < init.len() implies !(#[trigger] init[i]).contains(d) by {
            assert(!parts[i].contains(d));
        }
        lemma_joined_chars(init, sep, d);
        assert(!parts[parts.len() - 1].contains(d));
        let whole = join(parts, sep);
        let front = join(init, sep);
        if whole.contains(d) {
            let k = choose|k: int| 0 <= k < whole.len() && whole[k] == d;
            if k < front.len() {
                assert(front[k] == d);
            } else if k < front.len() + sep.len() {
                assert(sep[k - front.len()] == d);
            } else {
                assert(parts.last()[k - front.len() - sep.len()] == d);
            }
        }
    } else if parts.len() == 1 {
        assert(!parts[0].contains(d));
    }
}

/// The field written for portable features holds no space and no line feed,
/// is no path, and reads back as the features.
proof fn lemma_feature_field(features: Set<Seq<char>>)
    requires
        portable_features(features),
        ascending::<String>(features).to_set() == features,
    ensures
        portable_word(feature_field(features)),
        !path_like(feature_field(features)),
        listed_features(feature_field(features)) == features,
{
    reveal_strlit("-");
    reveal_strlit(",");
    reveal_strlit(".rlib");
    reveal_strlit(".rmeta");
    if features != Set::<Seq<char>>::empty() {
        let parts = ascending::<String>(features);
        let field = join(parts, ","@);
        assert(parts.len() > 0) by {
            if parts.len() == 0 {
                assert(parts.to_set() =~= Set::<Seq<char>>::empty());
            }
        }
        assert forall|i: int| 0 <= i < parts.len() implies !(#[trigger] parts[i]).contains(' ')
            && !parts[i].contains('\n') && !parts[i].contains(',') && parts[i].len() > 0 by {
            assert(parts.to_set().contains(parts[i]));
        }
        lemma_joined_chars(parts, ","@, ' ');
        lemma_joined_chars(parts, ","@, '\n');
        assert(","@ =~= seq![',']);
        lemma_split_of_join(parts, ',');
        assert(features.remove(seq![]) =~= features) by {
            if features.contains(seq![]) {
                assert(parts.to_set().contains(seq![]));
            }
        }
        if field == "-"@ {
            let one = seq!["-"@];
            assert(!one[0].contains(','));
            lemma_split_of_join(one, ',');
            assert(parts == one);
            assert(parts.to_set() =~= set!["-"@]) by {
                assert(one.to_set().contains(one[0]));
            }
        }
    }
}

/// A line written for words without spaces and a field without spaces reads
/// back as those words and what the field and the path say.
proof fn lemma_line_fields(name: Seq<char>, version: Seq<char>, field: Seq<char>, path: Seq<char>)
    requires
        !name.contains(' '),
        !version.contains(' '),
    ensures
        line_entry(name + " "@ + version + " "@ + field + " "@ + path) == Some(
            ((name, version), field_artifact(field + seq![' '] + path)),
        ),
{
    reveal_strlit(" ");
    assert(" "@ =~= seq![' ']);
    let line = name + " "@ + version + " "@ + field + " "@ + path;
    let rest1 = version + seq![' '] + (field + seq![' '] + path);
    assert(line =~= name + seq![' '] + rest1);
    lemma_cut_at(name, ' ', rest1);
    lemma_cut_at(version, ' ', field + seq![' '] + path);
}

/// A portable entry is one line, which reads back as the entry.
proof fn lemma_entry_line(id: Id, artifact: Artifact)
    requires
        portable(id, artifact),
        ascending::<String>(artifact.features).to_set() == artifact.features,
    ensures
        is_line(entry_line(id, artifact)),
        line_entry(entry_line(id, artifact)) == Some((id, artifact)),
{
    let field = feature_field(artifact.features);
    lemma_feature_field(artifact.features);
    lemma_line_fields(id.0, id.1, field, artifact.path);
    lemma_cut_at(field, ' ', artifact.path);
    reveal_strlit(" ");
    let line = entry_line(id, artifact);
    assert(" "@ =~= seq![' ']);
    lemma_feed_free(id.0, id.1, field, artifact.path);
    if artifact.path.len() > 0 {
        assert(line.last() == artifact.path.last());
    } else {
        assert(line.last() == ' ');
    }
}

/// Lines that say what a manifest says of its first keys say that much of it.
proof fn lemma_entries_prefix(m: Map<Id, Artifact>, ls: Seq<Seq<char>>, n: int)
    requires
        0 <= n <= ids(m).len(),
        ls.len() == ids(m).len(),
        ids(m).no_duplicates(),
        ids(m).to_set() == m.dom(),
        forall|i: int|
            0 <= i < ids(m).len() ==> line_entry(#[trigger] ls[i]) == Some(
                (ids(m)[i], m[ids(m)[i]]),
            ),
    ensures
        entries_of(ls.take(n)) == Ok::<Map<Id, Artifact>, Seq<char>>(
            m.restrict(ids(m).take(n).to_set()),
        ),
    decreases n,
{
    let keys = ids(m);
    if n == 0 {
        assert(m.restrict(keys.take(0).to_set()) =~= Map::<Id, Artifact>::empty());
    } else {
        lemma_entries_prefix(m, ls, n - 1);
        assert(ls.take(n).drop_last() == ls.take(n - 1));
        assert(ls.take(n).last() == ls[n - 1]);
        assert(keys.take(n) == keys.take(n - 1).push(keys[n - 1]));
        keys.take(n - 1).lemma_push_to_set_commute(keys[n - 1]);
        assert(m.dom().contains(keys[n - 1])) by {
            assert(keys.to_set().contains(keys[n - 1]));
        }
        assert(m.restrict(keys.take(n).to_set()) =~= m.restrict(keys.take(n - 1).to_set()).insert(
            keys[n - 1],
            m[keys[n - 1]],
        ));
    }
}

/// Writing a manifest and loading what was written gives the manifest back,
/// as long as every entry is portable.
pub proof fn manifest_round_trips(manifest: SdkManifest)
    requires
        manifest.wf(),
        forall|id: Id| #[trigger]
            manifest@.dom().contains(id) ==> portable(id, manifest@[id]),
    ensures
        entries_of(lines(terminated(manifest_lines(manifest@)))) == Ok::<
            Map<Id, Artifact>,
            Seq<char>,
        >(manifest@),
{
    let m = manifest@;
    let keys = ids(m);
    let ls = manifest_lines(m);
    manifest.lemma_listed();
    assert forall|i: int| 0 <= i < ls.len() implies is_line(#[trigger] ls[i]) && line_entry(ls[i])
        == Some((keys[i], m[keys[i]])) by {
        assert(keys.to_set().contains(keys[i]));
        lemma_entry_line(keys[i], m[keys[i]]);
    }
    crate::text::lemma_lines_of_terminated(ls);
    lemma_entries_prefix(m, ls, keys.len() as int);
    assert(ls.take(ls.len() as int) == ls);
    assert(keys.take(keys.len() as int) == keys);
    assert(m.restrict(keys.to_set()) =~= m);
}

/// Whatever lines say of a crate, one of them says.
proof fn lemma_entries_source(ls: Seq<Seq<char>>, m: Map<Id, Artifact>, id: Id)
    requires
        entries_of(ls) == Ok::<Map<Id, Artifact>, Seq<char>>(m),
        m.dom().contains(id),
    ensures
        exists|i: int| 0 <= i < ls.len() && line_entry(#[trigger] ls[i]) == Some((id, m[id])),
    decreases ls.len(),
{
    let init = ls.drop_last();
    let (last_id, last_artifact) = line_entry(ls.last())->0;
    if last_id == id {
        assert(line_entry(ls[ls.len() - 1]) == Some((id, m[id])));
    } else {
        let before = entries_of(init)->Ok_0;
        lemma_entries_source(init, before, id);
        let i = choose|i: int|
            0 <= i < init.len() && line_entry(#[trigger] init[i]) == Some((id, before[id]));
        assert(line_entry(ls[i]) == Some((id, m[id])));
    }
}

/// What one line says is made of words, and its features are not empty and
/// hold no comma.
proof fn lemma_entry_words(line: Seq<char>)
    requires
        !line.contains('\n'),
        line_entry(line) is Some,
    ensures
        ({
            let (id, artifact) = line_entry(line)->0;
            &&& portable_word(id.0)
            &&& portable_word(id.1)
            &&& !artifact.path.contains('\n')
            &&& forall|f: Seq<char>| #[trigger]
                artifact.features.contains(f) ==> f.len() > 0 && portable_word(f) && !f.contains(
                    ',',
                )
        }),
{
    lemma_cut_parts(line, ' ');
    let (name, rest) = split_once(line, ' ')->0;
    lemma_cut_parts(rest, ' ');
    let (version, rest2) = split_once(rest, ' ')->0;
    lemma_cut_parts(rest2, ' ');
    lemma_no_feed(name, seq![' '], rest);
    lemma_no_feed(version, seq![' '], rest2);
    match split_once(rest2, ' ') {
        None => {},
        Some((field, path)) => {
            lemma_no_feed(field, seq![' '], path);
            lemma_split_pieces(field, ',');
            let artifact = field_artifact(rest2);
            assert forall|f: Seq<char>| #[trigger] artifact.features.contains(f) implies f.len() > 0
                && portable_word(f) && !f.contains(',') by {
                let parts = split(field, ',');
                assert(parts.contains(f));
                let i = choose|i: int| 0 <= i < parts.len() && parts[i] == f;
                assert(!parts[i].contains(','));
                if f.contains(' ') {
                    assert(parts[i].contains(' '));
                    assert(field.contains(' '));
                }
                if f.contains('\n') {
                    assert(parts[i].contains('\n'));
                    assert(field.contains('\n'));
                }
                if f.len() == 0 {
                    assert(f =~= seq![]);
                }
            }
        },
    }
}

/// A text without line feeds has none in its parts.
proof fn lemma_no_feed(a: Seq<char>, b: Seq<char>, c: Seq<char>)
    requires
        !(a + b + c).contains('\n'),
    ensures
        !a.contains('\n'),
        !c.contains('\n'),
{
    let s = a + b + c;
    if a.contains('\n') {
        let k = choose|k: int| 0 <= k < a.len() && a[k] == '\n';
        assert(s[k] == '\n');
    }
    if c.contains('\n') {
        let k = choose|k: int| 0 <= k < c.len() && c[k] == '\n';
        assert(s[a.len() + b.len() + k] == '\n');
    }
}

/// What the line of an entry reads as when no part of it is at odds with
/// the format but for the end of its path.
spec fn reread(id: Id, artifact: Artifact) -> Artifact {
    field_artifact(feature_field(artifact.features) + seq![' '] + strip_cr(artifact.path))
}

/// Only portable entries survive: a manifest that loads as what was written
/// has no other.
pub proof fn round_trip_is_portable(manifest: SdkManifest)
    requires
        manifest.wf(),
        entries_of(lines(terminated(manifest_lines(manifest@)))) == Ok::<
            Map<Id, Artifact>,
            Seq<char>,
        >(manifest@),
    ensures
        forall|id: Id| #[trigger]
            manifest@.dom().contains(id) ==> portable(id, manifest@[id]),
{
    let m = manifest@;
    let keys = ids(m);
    let written = manifest_lines(m);
    let ls = lines(terminated(written));
    manifest.lemma_listed();
    lemma_lines_whole(terminated(written));
    reveal_strlit("-");
    reveal_strlit(",");
    reveal_strlit(" ");
    reveal_strlit(".rlib");
    reveal_strlit(".rmeta");
    assert(" "@ =~= seq![' ']);
    assert(","@ =~= seq![',']);
    // Every entry was read from a line, so its words are words.
    assert forall|id: Id| #[trigger] m.dom().contains(id) implies {
        &&& portable_word(id.0)
        &&& portable_word(id.1)
        &&& !m[id].path.contains('\n')
        &&& portable_word(feature_field(m[id].features))
        &&& forall|f: Seq<char>| #[trigger]
            m[id].features.contains(f) ==> f.len() > 0 && portable_word(f) && !f.contains(',')
    } by {
        lemma_entries_source(ls, m, id);
        let i = choose|i: int|
            0 <= i < ls.len() && line_entry(#[trigger] ls[i]) == Some((id, m[id]));
        assert(!ls[i].contains('\n'));
        lemma_entry_words(ls[i]);
        let parts = ascending::<String>(m[id].features);
        assert forall|j: int| 0 <= j < parts.len() implies portable_word(#[trigger] parts[j]) by {
            assert(parts.to_set().contains(parts[j]));
        }
        assert forall|j: int| 0 <= j < parts.len() implies !(#[trigger] parts[j]).contains(
            ' ',
        ) by {
            assert(portable_word(parts[j]));
        }
        assert forall|j: int| 0 <= j < parts.len() implies !(#[trigger] parts[j]).contains(
            '\n',
        ) by {
            assert(portable_word(parts[j]));
        }
        lemma_joined_chars(parts, ","@, ' ');
        lemma_joined_chars(parts, ","@, '\n');
    }
    // So the lines are those written, but for carriage returns at their end.
    assert forall|i: int| 0 <= i < written.len() implies !(#[trigger] written[i]).contains(
        '\n',
    ) by {
        assert(keys.to_set().contains(keys[i]));
        let id = keys[i];
        assert(m.dom().contains(id));
        let field = feature_field(m[id].features);
        lemma_feed_free(id.0, id.1, field, m[id].path);
    }
    lemma_lines_of_terminated_cr(written);
    let again = Map::new(|id: Id| m.dom().contains(id), |id: Id| reread(id, m[id]));
    assert(again.dom() =~= m.dom());
    assert forall|i: int| 0 <= i < keys.len() implies line_entry(#[trigger] ls[i]) == Some(
        (ids(again)[i], again[ids(again)[i]]),
    ) by {
        let id = keys[i];
        assert(keys.to_set().contains(id));
        assert(m.dom().contains(id));
        let field = feature_field(m[id].features);
        let path = m[id].path;
        lemma_line_fields(id.0, id.1, field, strip_cr(path));
        assert(ls[i] == strip_cr(written[i]));
        let line = written[i];
        if path.len() > 0 {
            assert(line.last() == path.last());
        } else {
            assert(line.last() == ' ');
        }
        assert(strip_cr(line) =~= id.0 + " "@ + id.1 + " "@ + field + " "@ + strip_cr(path));
    }
    lemma_entries_prefix(again, ls, keys.len() as int);
    assert(ls.take(ls.len() as int) == ls);
    assert(keys.take(keys.len() as int) == keys);
    assert(again.restrict(keys.to_set()) =~= again);
    assert(m == again);
    assert forall|id: Id| #[trigger] m.dom().contains(id) implies portable(id, m[id]) by {
        let features = m[id].features;
        let field = feature_field(features);
        let path = strip_cr(m[id].path);
        assert(m[id] == again[id]);
        lemma_cut_at(field, ' ', path);
        if path_like(field) {
            assert(features =~= Set::<Seq<char>>::empty());
            assert(field == "-"@);
        }
        assert(!path_like(field));
        assert(m[id].path == path);
        if features == set!["-"@] {
            let one = seq!["-"@];
            assert(one.to_set() =~= features) by {
                assert(one.to_set().contains(one[0]));
            }
            assert(crate::order::ascends::<String>(one));
            crate::order::lemma_ascending_is::<String>(one);
            assert(features.contains("-"@));
            assert(field == "-"@);
            assert(listed_features(field) =~= Set::<Seq<char>>::empty());
        }
    }
}

/// A line is free of line feeds when its parts are.
proof fn lemma_feed_free(name: Seq<char>, version: Seq<char>, field: Seq<char>, path: Seq<char>)
    requires
        !name.contains('\n'),
        !version.contains('\n'),
        !field.contains('\n'),
        !path.contains('\n'),
    ensures
        !(name + " "@ + version + " "@ + field + " "@ + path).contains('\n'),
{
    reveal_strlit(" ");
    assert(" "@ =~= seq![' ']);
    let line = name + " "@ + version + " "@ + field + " "@ + path;
    if line.contains('\n') {
        let k = choose|k: int| 0 <= k < line.len() && line[k] == '\n';
        let a = name.len();
        let b = a + 1 + version.len();
        let c = b + 1 + field.len();
        if k < a {
            assert(name[k] == '\n');
        } else if a < k && k < b {
            assert(version[k - a - 1] == '\n');
        } else if b < k && k < c {
            assert(field[k - b - 1] == '\n');
        } else if c < k {
            assert(path[k - c - 1] == '\n');
        }
    }
}

/// A line in the older form loads with its path intact, separators, spaces
/// and all, and with no features: as long as the path, up to its first
/// space if it has one, looks like a path.
pub proof fn older_line_claims_no_features(name: Seq<char>, version: Seq<char>, path: Seq<char>)
    requires
        !name.contains(' '),
        !version.contains(' '),
        match split_once(path, ' ') {
            Some((head, _)) => path_like(head),
            None => true,
        },
    ensures
        line_entry(name + seq![' '] + version + seq![' '] + path) == Some(
            ((name, version), (Artifact { features: Set::empty(), path })),
        ),
{
    let line = name + seq![' '] + version + seq![' '] + path;
    assert(line =~= name + seq![' '] + (version + seq![' '] + path));
    lemma_cut_at(name, ' ', version + seq![' '] + path);
    lemma_cut_at(version, ' ', path);
}

/// An entry without features covers the empty request and no other.
pub proof fn unknown_features_cover_nothing(m: Map<Id, Artifact>, id: Id, wanted: Set<Seq<char>>)
    requires
        m.dom().contains(id),
        m[id].features == Set::<Seq<char>>::empty(),
    ensures
        covers(m, id, wanted) <==> wanted == Set::<Seq<char>>::empty(),
{
    if covers(m, id, wanted) {
        assert(wanted =~= Set::<Seq<char>>::empty());
    }
}

/// The shortfall of an entry is empty exactly when the entry covers what is
/// wanted, no wanted feature being the empty text.
pub proof fn shortfall_empty_iff_covered(m: Map<Id, Artifact>, id: Id, wanted: Set<Seq<char>>)
    requires
        m.dom().contains(id),
        wanted.finite(),
        !wanted.contains(seq![]),
    ensures
        shortfall(m, id, wanted).len() == 0 <==> covers(m, id, wanted),
{
    let lacking = wanted.difference(m[id].features);
    lemma_ascending::<String>(lacking);
    let parts = ascending::<String>(lacking);
    if covers(m, id, wanted) {
        assert(lacking =~= Set::<Seq<char>>::empty());
        assert(parts.len() == 0);
    } else {
        let f = choose|f: Seq<char>| wanted.contains(f) && !m[id].features.contains(f);
        assert(lacking.contains(f));
        assert(parts.len() > 0) by {
            if parts.len() == 0 {
                assert(!parts.to_set().contains(f));
            }
        }
        let last = parts[parts.len() - 1];
        assert(parts.to_set().contains(last));
        assert(last.len() > 0) by {
            if last.len() == 0 {
                assert(last =~= seq![]);
            }
        }
    }
}

/// A crate that is held at one version only has that version alone, and the
/// lookup by name finds it.
pub proof fn one_version_is_found_by_name(m: Map<Id, Artifact>, name: Seq<char>)
    requires
        m.dom().finite(),
    ensures
        first_version(m, name) is Some <==> versions(m, name).len() > 0,
        first_version(m, name) matches Some(id) ==> versions(m, name).contains(id),
        versions(m, name).len() == 1 ==> first_version(m, name) is Some && versions(m, name)
            == set![first_version(m, name)->0],
{
    let pred = is_named(name);
    lemma_ascending::<(String, String)>(m.dom());
    let keys = ids(m);
    let found = keys.filter(pred);
    if found.len() > 0 {
        keys.lemma_filter_pred(pred, 0);
        keys.lemma_filter_contains_rev(pred, found[0]);
        assert(keys.to_set().contains(found[0]));
        assert(versions(m, name).contains(found[0]));
        if versions(m, name).len() == 1 {
            assert(versions(m, name) =~= set![found[0]]) by {
                assert forall|id: Id| versions(m, name).contains(id) implies id == found[0] by {
                    if id != found[0] {
                        let two = set![id, found[0]];
                        assert(two.subset_of(versions(m, name)));
                        vstd::set_lib::lemma_len_subset(two, versions(m, name));
                    }
                }
            }
        }
    } else if versions(m, name).len() > 0 {
        let id = versions(m, name).choose();
        assert(versions(m, name).contains(id));
        assert(keys.to_set().contains(id));
        let i = choose|i: int| 0 <= i < keys.len() && keys[i] == id;
        keys.lemma_filter_contains(pred, i);
    }
}

/// An entry is reported missing when its path is absolute and not there.
proof fn lemma_reported(
    m: Map<Id, Artifact>,
    absolute: Seq<bool>,
    existing: Seq<Seq<char>>,
    n: int,
    i: int,
)
    requires
        0 <= i < n <= ids(m).len(),
        absolute[i],
        !existing.contains(m[ids(m)[i]].path),
    ensures
        missing(m, absolute, existing, n).len() > 0,
    decreases n,
{
    if i < n - 1 {
        lemma_reported(m, absolute, existing, n - 1, i);
    }
}

/// Whatever the host, an artifact that is gone is reported: of one given from
/// the root and one given from the root of a drive, the host's own at least.
pub proof fn a_missing_artifact_is_reported(
    m: Map<Id, Artifact>,
    absolute: Seq<bool>,
    existing: Seq<Seq<char>>,
    limit: int,
    rooted: Id,
    on_drive: Id,
)
    requires
        m.dom().finite(),
        absolute_answers(m, absolute),
        limit > 0,
        m.dom().contains(rooted),
        m.dom().contains(on_drive),
        m[rooted].path.len() > 0,
        m[rooted].path[0] == '/',
        has_colon(m[on_drive].path),
        is_letter(m[on_drive].path[0]),
        m[on_drive].path.len() > 2,
        is_slash(m[on_drive].path[2]),
        !existing.contains(m[rooted].path),
        !existing.contains(m[on_drive].path),
    ensures
        capped(missing(m, absolute, existing, ids(m).len() as int), limit).len() > 0,
{
    let all = ids(m);
    lemma_ascending::<(String, String)>(m.dom());
    let unix = choose|unix: bool| #[trigger] follow_rule(m, unix, absolute);
    let id = if unix {
        rooted
    } else {
        on_drive
    };
    assert(all.to_set().contains(id));
    let i = choose|i: int| 0 <= i < all.len() && all[i] == id;
    assert(paths(m)[i] == m[id].path);
    assert(absolute_on(unix, paths(m)[i], absolute[i]));
    let path = m[id].path;
    if !unix {
        assert(!is_slash(path[1]));
        assert(!shared(path));
    }
    lemma_reported(m, absolute, existing, all.len() as int, i);
}

/// A version is the only one of a crate exactly when it is held and no other
/// is.
pub proof fn one_version_is_the_only_one(m: Map<Id, Artifact>, name: Seq<char>, version: Seq<char>)
    requires
        m.dom().finite(),
    ensures
        only_version(m, name) == Some(version) <==> m.dom().contains((name, version)) && forall|
            id: Id,
        | #[trigger] m.dom().contains(id) && id.0 == name ==> id.1 == version,
{
    let held = versions(m, name);
    m.dom().lemma_len_filter(is_named(name));
    if only_version(m, name) == Some(version) {
        Set::lemma_is_singleton(held);
        let one = held.choose();
        assert(held.contains(one));
        assert(one == (name, version));
        assert forall|id: Id| #[trigger] m.dom().contains(id) && id.0 == name implies id.1
            == version by {
            assert(held.contains(id));
        }
    }
    if m.dom().contains((name, version)) && forall|id: Id| #[trigger]
        m.dom().contains(id) && id.0 == name ==> id.1 == version {
        assert(held =~= set![(name, version)]) by {
            assert forall|id: Id| held.contains(id) <==> id == (name, version) by {
                if held.contains(id) {
                    assert(m.dom().contains(id));
                }
            }
        }
        assert(held.contains(held.choose()));
    }
}

} // verus!
