//! What holds of generated manifests as a whole.

use vstd::prelude::*;
use crate::generate::{all_link_paths, first_file, messages_of, tree_closure, tree_entry, in_dir, message_entries, message_entry, message_link_paths, dev_args, profile_answers};
use crate::host::{file_name_of, file_name_on, front_part, is_mark, is_root, lemma_last_part, lemma_name_start, lemma_plain_tail, lemma_slashed_name, lemma_slashed_take, lemma_slashed_trimmed, name_start, named, on_share, parent_of, parent_on, plain, readable, separates, shared, slashed, trimmed_path};
use crate::json::{json_text, JsonTree};
use crate::json_laws::{a_string_is_listed_when_an_item_is, lemma_picked_concat, lemma_picked_one};
use crate::manifest::Id;
use crate::package_id::{crate_name, id_version};
use crate::plan_laws::{lemma_kept, lemma_picked};
use crate::text::{is_white, lines, replace};
use crate::text_laws::{a_blank_text_has_no_word, blank, lines_end_in_line_feeds, the_first_word_stands_between_white_space, what_occurs_has_something_around_it};

verus! {

/// Whether a message is the last that makes an entry for a crate.
pub open spec fn last_for(
    docs: Seq<JsonTree>,
    closure: Set<Id>,
    triple_dir: Seq<char>,
    id: Id,
    k: int,
) -> bool {
    &&& 0 <= k < docs.len()
    &&& message_entry(docs[k], closure, triple_dir) matches Some(e) && e.0 == id
    &&& forall|j: int|
        k < j < docs.len() ==> match message_entry(#[trigger] docs[j], closure, triple_dir) {
            Some(e) => e.0 != id,
            None => true,
        }
}

/// Every entry of a generated manifest is for a crate of the closure, and is
/// what the last message for that crate made of it.
pub proof fn entries_come_from_the_last_message(
    docs: Seq<JsonTree>,
    closure: Set<Id>,
    triple_dir: Seq<char>,
    id: Id,
)
    requires
        message_entries(docs, closure, triple_dir).dom().contains(id),
    ensures
        closure.contains(id),
        exists|k: int| #[trigger]
            last_for(docs, closure, triple_dir, id, k) && message_entry(
                docs[k],
                closure,
                triple_dir,
            ) == Some((id, message_entries(docs, closure, triple_dir)[id])),
    decreases docs.len(),
{
    let init = docs.drop_last();
    let m = message_entries(docs, closure, triple_dir);
    match message_entry(docs.last(), closure, triple_dir) {
        Some(e) if e.0 == id => {
            assert(last_for(docs, closure, triple_dir, id, docs.len() - 1));
        },
        _ => {
            entries_come_from_the_last_message(init, closure, triple_dir, id);
            let k = choose|k: int| #[trigger]
                last_for(init, closure, triple_dir, id, k) && message_entry(
                    init[k],
                    closure,
                    triple_dir,
                ) == Some((id, message_entries(init, closure, triple_dir)[id]));
            assert(docs[k] == init[k]);
            assert forall|j: int| k < j < docs.len() implies match message_entry(
                #[trigger] docs[j],
                closure,
                triple_dir,
            ) {
                Some(e) => e.0 != id,
                None => true,
            } by {
                if j < init.len() {
                    assert(docs[j] == init[j]);
                }
            }
            assert(last_for(docs, closure, triple_dir, id, k));
            assert(m[id] == message_entries(init, closure, triple_dir)[id]);
        },
    }
}

/// Every message that makes an entry leaves one for its crate.
pub proof fn messages_leave_entries(
    docs: Seq<JsonTree>,
    closure: Set<Id>,
    triple_dir: Seq<char>,
    k: int,
)
    requires
        0 <= k < docs.len(),
    ensures
        match message_entry(docs[k], closure, triple_dir) {
            Some((id, _)) => message_entries(docs, closure, triple_dir).dom().contains(id),
            None => true,
        },
    decreases docs.len(),
{
    if k < docs.len() - 1 {
        assert(docs.drop_last()[k] == docs[k]);
        messages_leave_entries(docs.drop_last(), closure, triple_dir, k);
    }
}

/// The first file with a suffix in a directory is one, and there is none only
/// where no file is.
proof fn lemma_first_file(files: Seq<Seq<char>>, triple_dir: Seq<char>, suffix: Seq<char>)
    ensures
        match first_file(files, triple_dir, suffix) {
            Some(f) => files.contains(f) && in_dir(f, triple_dir) && suffix.is_suffix_of(f),
            None => forall|i: int|
                0 <= i < files.len() ==> !(in_dir(#[trigger] files[i], triple_dir)
                    && suffix.is_suffix_of(files[i])),
        },
    decreases files.len(),
{
    if files.len() > 0 {
        let rest = files.drop_first();
        if in_dir(files[0], triple_dir) && suffix.is_suffix_of(files[0]) {
            assert(files.contains(files[0]));
        } else {
            lemma_first_file(rest, triple_dir, suffix);
            match first_file(files, triple_dir, suffix) {
                Some(f) => {
                    let k = choose|k: int| 0 <= k < rest.len() && rest[k] == f;
                    assert(files[k + 1] == f);
                },
                None => {
                    assert forall|i: int| 0 <= i < files.len() implies !(in_dir(
                        #[trigger] files[i],
                        triple_dir,
                    ) && suffix.is_suffix_of(files[i])) by {
                        if i > 0 {
                            assert(rest[i - 1] == files[i]);
                        }
                    }
                },
            }
        }
    }
}

/// An entry's artifact is a file that the build reported for the target, never
/// a host-side one: a library, or metadata where there is no library.
pub proof fn artifacts_are_target_side(doc: JsonTree, closure: Set<Id>, triple_dir: Seq<char>)
    ensures
        match message_entry(doc, closure, triple_dir) {
            Some((_, artifact)) => {
                let files = doc.member("filenames"@).text_items();
                &&& files.contains(artifact.path)
                &&& in_dir(artifact.path, triple_dir)
                &&& ".rlib"@.is_suffix_of(artifact.path) || {
                    &&& ".rmeta"@.is_suffix_of(artifact.path)
                    &&& forall|i: int|
                        0 <= i < files.len() ==> !(in_dir(#[trigger] files[i], triple_dir)
                            && ".rlib"@.is_suffix_of(files[i]))
                }
            },
            None => true,
        },
{
    let files = doc.member("filenames"@).text_items();
    lemma_first_file(files, triple_dir, ".rlib"@);
    lemma_first_file(files, triple_dir, ".rmeta"@);
}

/// A search path is recorded exactly when a build script that ran reported
/// it.
pub proof fn recorded_paths_are_reported(docs: Seq<JsonTree>, path: Seq<char>)
    ensures
        all_link_paths(docs).contains(path) <==> exists|k: int|
            0 <= k < docs.len() && message_link_paths(#[trigger] docs[k]).contains(path),
    decreases docs.len(),
{
    if docs.len() > 0 {
        let init = docs.drop_last();
        recorded_paths_are_reported(init, path);
        if all_link_paths(init).contains(path) {
            let k = choose|k: int|
                0 <= k < init.len() && message_link_paths(#[trigger] init[k]).contains(path);
            assert(docs[k] == init[k]);
        }
        if message_link_paths(docs.last()).contains(path) {
            assert(docs[docs.len() - 1] == docs.last());
        }
        if exists|k: int|
            0 <= k < docs.len() && message_link_paths(#[trigger] docs[k]).contains(path) {
            let k = choose|k: int|
                0 <= k < docs.len() && message_link_paths(#[trigger] docs[k]).contains(path);
            if k < init.len() {
                assert(init[k] == docs[k]);
            }
        }
    }
}

/// The name of the directory that a library lies in.
pub open spec fn profile_of(unix: bool, library: Seq<char>) -> Option<Seq<char>> {
    match parent_of(unix, library) {
        Some(dir) => file_name_of(unix, dir),
        None => None,
    }
}

/// On one host the profile that artifacts are enumerated from is the name of
/// the directory that the SDK library lies in, whatever its path. On Windows
/// the path and the directory must be such that it is stated how they are
/// read.
pub proof fn the_profile_is_the_name_of_the_directory(
    unix: bool,
    library: Seq<char>,
    answer_dir: Option<Seq<char>>,
    answer_name: Option<Seq<char>>,
)
    requires
        readable(unix, library),
        parent_on(unix, library, answer_dir),
        match answer_dir {
            Some(dir) => readable(unix, dir) && file_name_on(unix, dir, answer_name),
            None => answer_name is None,
        },
    ensures
        answer_name == profile_of(unix, library),
        dev_args(answer_name == Some("release"@)) == dev_args(
            profile_of(unix, library) == Some("release"@),
        ),
{
}

/// Where every host finds the same components in a path, the profile is the
/// name of the directory that the SDK library lies in, whatever the host.
pub proof fn the_profile_is_that_of_the_library(
    library: Seq<char>,
    answer_dir: Option<Seq<char>>,
    answer_name: Option<Seq<char>>,
)
    requires
        slashed(library),
        profile_answers(library, answer_dir, answer_name),
    ensures
        answer_name == profile_of(true, library),
{
    let whole = trimmed_path(true, library);
    lemma_slashed_name(library);
    lemma_slashed_trimmed(library);
    lemma_slashed_name(whole);
    lemma_name_start(true, whole);
    let front = front_part(true, whole);
    lemma_slashed_take(whole, name_start(true, whole));
    lemma_slashed_trimmed(front);
    match parent_of(true, library) {
        Some(dir) => {
            lemma_slashed_name(dir);
            lemma_slashed_trimmed(dir);
            lemma_slashed_name(trimmed_path(true, dir));
        },
        None => {},
    }
}

/// A plain name behind a separator is not trimmed, and what stands before it
/// is cut off at the separator.
proof fn lemma_named_path(unix: bool, dir: Seq<char>, sep: char, name: Seq<char>)
    requires
        separates(unix, sep),
        plain(name),
        named(name),
        !on_share(dir + seq![sep] + name),
    ensures
        trimmed_path(unix, dir + seq![sep] + name) == dir + seq![sep] + name,
        file_name_of(unix, dir + seq![sep] + name) == Some(name),
        parent_of(unix, dir + seq![sep] + name) == Some(trimmed_path(unix, dir + seq![sep])),
{
    let path = dir + seq![sep] + name;
    lemma_plain_tail(name);
    lemma_last_part(unix, dir + seq![sep], name);
    assert(!is_mark(name[name.len() - 1]));
    assert(path.last() == name.last());
    if path.len() == 2 {
        assert(path[1] == name[0]);
    }
}

/// The name of the directory is what stands between the last two separators.
pub proof fn the_directory_is_named_between_separators(
    unix: bool,
    dir: Seq<char>,
    profile: Seq<char>,
    library: Seq<char>,
    first: char,
    second: char,
)
    requires
        separates(unix, first),
        separates(unix, second),
        plain(profile),
        named(profile),
        plain(library),
        named(library),
        !shared(dir + seq![first] + profile),
    ensures
        profile_of(unix, dir + seq![first] + profile + seq![second] + library) == Some(profile),
{
    let whole = dir + seq![first] + profile;
    let front = whole + seq![second];
    lemma_plain_tail(profile);
    assert(!is_mark(profile[profile.len() - 1]));
    assert(!is_mark(profile[0]));
    assert(whole.len() >= 2);
    assert(!shared(front + library)) by {
        assert((front + library)[0] == whole[0] && (front + library)[1] == whole[1]);
    }
    lemma_named_path(unix, whole, second, library);
    lemma_named_path(unix, dir, first, profile);
    assert(front.drop_last() =~= whole);
    assert(front[0] == whole[0] && front[1] == whole[1]);
    if dir.len() == 0 {
        assert(front[1] == profile[0]);
    }
    if front.len() == 3 {
        assert(front[1] == profile[0]);
    }
    assert(!is_root(unix, front));
    assert(trimmed_path(unix, front) == trimmed_path(unix, whole));
}

/// A library given by its bare name has no profile.
pub proof fn a_bare_library_has_no_profile(unix: bool, library: Seq<char>)
    requires
        plain(library),
        named(library),
    ensures
        profile_of(unix, library) is None,
{
    lemma_plain_tail(library);
    lemma_last_part(unix, seq![], library);
    assert(Seq::<char>::empty() + library =~= library);
    assert(!is_mark(library[library.len() - 1]));
    assert(!is_mark(library[0]));
}

/// A line of `cargo tree` names a crate in its first word and, behind a `v`,
/// its version in the second, whatever follows.
pub proof fn a_tree_line_names_crate_and_version(
    before: Seq<char>,
    name: Seq<char>,
    gap: Seq<char>,
    version: Seq<char>,
    rest: Seq<char>,
)
    requires
        blank(before),
        name.len() > 0,
        forall|i: int| 0 <= i < name.len() ==> !is_white(#[trigger] name[i]),
        gap.len() > 0,
        blank(gap),
        forall|i: int| 0 <= i < version.len() ==> !is_white(#[trigger] version[i]),
        rest.len() > 0 ==> is_white(rest[0]),
    ensures
        tree_entry(before + name + (gap + (seq!['v'] + version) + rest)) == Some(
            (crate_name(name), version),
        ),
{
    let word = seq!['v'] + version;
    let tail = gap + word + rest;
    assert forall|i: int| 0 <= i < word.len() implies !is_white(#[trigger] word[i]) by {
        if i > 0 {
            assert(!is_white(version[i - 1]));
        }
    }
    assert(is_white(gap[0]));
    assert(tail[0] == gap[0]);
    the_first_word_stands_between_white_space(before, name, tail);
    the_first_word_stands_between_white_space(gap, word, rest);
    assert(word.skip(1) =~= version);
}

/// A line whose second word does not start with a `v`, or that has less than
/// two words, names nothing.
pub proof fn other_tree_lines_name_nothing(
    before: Seq<char>,
    name: Seq<char>,
    gap: Seq<char>,
    word: Seq<char>,
    rest: Seq<char>,
)
    requires
        blank(before),
        name.len() > 0,
        forall|i: int| 0 <= i < name.len() ==> !is_white(#[trigger] name[i]),
        gap.len() > 0,
        blank(gap),
        word.len() > 0,
        forall|i: int| 0 <= i < word.len() ==> !is_white(#[trigger] word[i]),
        word[0] != 'v',
        rest.len() > 0 ==> is_white(rest[0]),
    ensures
        tree_entry(before + name + (gap + word + rest)) is None,
        tree_entry(before + name + gap) is None,
        tree_entry(before) is None,
{
    let tail = gap + word + rest;
    assert(is_white(gap[0]));
    assert(tail[0] == gap[0]);
    the_first_word_stands_between_white_space(before, name, tail);
    the_first_word_stands_between_white_space(gap, word, rest);
    the_first_word_stands_between_white_space(before, name, gap);
    a_blank_text_has_no_word(gap);
    a_blank_text_has_no_word(before);
}

/// The closure holds what the lines of `cargo tree` name, and nothing else.
pub proof fn the_closure_is_what_the_lines_name(text: Seq<char>, id: Id)
    ensures
        tree_closure(text).contains(id) <==> exists|i: int|
            0 <= i < lines(text).len() && tree_entry(#[trigger] lines(text)[i]) == Some(id),
{
    let pick = |l: Seq<char>| tree_entry(l);
    let found = lines(text).filter_map(pick);
    assert(tree_closure(text).contains(id) <==> found.contains(id));
    if found.contains(id) {
        let i = choose|i: int| 0 <= i < found.len() && found[i] == id;
        let k = lemma_picked(lines(text), pick, i);
        assert(tree_entry(lines(text)[k]) == Some(id));
    }
    if exists|i: int|
        0 <= i < lines(text).len() && tree_entry(#[trigger] lines(text)[i]) == Some(id) {
        let k = choose|i: int|
            0 <= i < lines(text).len() && tree_entry(#[trigger] lines(text)[i]) == Some(id);
        lemma_kept(lines(text), pick, k);
    }
}

/// A file lies in the directory of a triple exactly when its path, written
/// with slashes, has the triple between two of them.
pub proof fn a_file_lies_in_the_directory_it_is_written_with(
    file: Seq<char>,
    triple: Seq<char>,
)
    ensures
        in_dir(file, seq!['/'] + triple + seq!['/']) <==> exists|front: Seq<char>, back: Seq<char>|
            replace(file, '\\', '/') == #[trigger] (front + (seq!['/'] + triple + seq!['/'])
                + back),
{
    what_occurs_has_something_around_it(
        replace(file, '\\', '/'),
        seq!['/'] + triple + seq!['/'],
    );
}

/// A path with the triple between two separators, whichever they are, lies in
/// its directory.
pub proof fn either_separator_bounds_the_triple(
    front: Seq<char>,
    first: char,
    triple: Seq<char>,
    second: char,
    back: Seq<char>,
)
    requires
        first == '/' || first == '\\',
        second == '/' || second == '\\',
        !triple.contains('\\'),
    ensures
        in_dir(
            front + seq![first] + triple + seq![second] + back,
            seq!['/'] + triple + seq!['/'],
        ),
{
    let file = front + seq![first] + triple + seq![second] + back;
    let dir = seq!['/'] + triple + seq!['/'];
    let a = replace(front, '\\', '/');
    let b = replace(back, '\\', '/');
    assert forall|i: int| 0 <= i < triple.len() implies triple[i] != '\\' by {
        assert(triple.contains(triple[i]));
    }
    assert(replace(file, '\\', '/') =~= a + dir + b);
    a_file_lies_in_the_directory_it_is_written_with(file, triple);
}

/// Whether a message is of a compiled library of the closure, told by its
/// members.
pub open spec fn compiles(
    doc: JsonTree,
    closure: Set<Id>,
    name: Seq<char>,
    package: Seq<char>,
    version: Seq<char>,
) -> bool {
    &&& doc.member("reason"@) == JsonTree::Text("compiler-artifact"@)
    &&& doc.member("target"@).member("name"@) == JsonTree::Text(name)
    &&& doc.member("package_id"@) == JsonTree::Text(package)
    &&& id_version(package) == Some(version)
    &&& closure.contains((crate_name(name), version))
    &&& !has_item(doc.member("target"@).member("kind"@), "proc-macro"@)
    &&& !has_item(doc.member("target"@).member("kind"@), "custom-build"@)
}

/// Whether a document is a list with a string among its items.
pub open spec fn has_item(doc: JsonTree, text: Seq<char>) -> bool {
    exists|i: int|
        doc is List && 0 <= i < doc->List_0.len() && (#[trigger] doc->List_0[i]) == JsonTree::Text(
            text,
        )
}

/// A message makes an entry exactly when it is of a compiled library of the
/// closure and lists a library or metadata in the directory of the triple.
/// The entry is for that crate and version, and its features are the strings
/// that the message lists, all of them.
pub proof fn a_message_makes_an_entry_with_all_its_features(
    doc: JsonTree,
    closure: Set<Id>,
    triple_dir: Seq<char>,
    name: Seq<char>,
    package: Seq<char>,
    version: Seq<char>,
)
    requires
        compiles(doc, closure, name, package, version),
    ensures
        message_entry(doc, closure, triple_dir) is Some <==> exists|f: Seq<char>|
            has_item(doc.member("filenames"@), f) && #[trigger] in_dir(f, triple_dir) && (
            ".rlib"@.is_suffix_of(f) || ".rmeta"@.is_suffix_of(f)),
        message_entry(doc, closure, triple_dir) matches Some((id, artifact)) ==> {
            &&& id == (crate_name(name), version)
            &&& forall|f: Seq<char>| #[trigger]
                artifact.features.contains(f) <==> has_item(doc.member("features"@), f)
        },
{
    let kinds = doc.member("target"@).member("kind"@);
    a_string_is_listed_when_an_item_is(kinds, "proc-macro"@);
    a_string_is_listed_when_an_item_is(kinds, "custom-build"@);
    let listed = doc.member("filenames"@);
    let files = listed.text_items();
    lemma_first_file(files, triple_dir, ".rlib"@);
    lemma_first_file(files, triple_dir, ".rmeta"@);
    let made = message_entry(doc, closure, triple_dir);
    if made is Some {
        let path = made->Some_0.1.path;
        assert(files.contains(path));
        a_string_is_listed_when_an_item_is(listed, path);
        assert(has_item(listed, path) && in_dir(path, triple_dir));
        let features = doc.member("features"@);
        assert forall|f: Seq<char>| #[trigger]
            made->Some_0.1.features.contains(f) <==> has_item(features, f) by {
            a_string_is_listed_when_an_item_is(features, f);
            assert(features.text_items().to_set().contains(f) <==> features.text_items().contains(
                f,
            ));
        }
    }
    if exists|f: Seq<char>|
        has_item(listed, f) && #[trigger] in_dir(f, triple_dir) && (".rlib"@.is_suffix_of(f)
            || ".rmeta"@.is_suffix_of(f)) {
        let f = choose|f: Seq<char>|
            has_item(listed, f) && #[trigger] in_dir(f, triple_dir) && (".rlib"@.is_suffix_of(f)
                || ".rmeta"@.is_suffix_of(f));
        a_string_is_listed_when_an_item_is(listed, f);
        let k = choose|k: int| 0 <= k < files.len() && files[k] == f;
        assert(in_dir(files[k], triple_dir));
    }
}

/// A message that is not of a compiled library of the closure makes no entry.
pub proof fn other_messages_make_no_entry(doc: JsonTree, closure: Set<Id>, triple_dir: Seq<char>)
    requires
        forall|name: Seq<char>, package: Seq<char>, version: Seq<char>|
            !#[trigger] compiles(doc, closure, name, package, version),
    ensures
        message_entry(doc, closure, triple_dir) is None,
{
    match (doc.member("target"@).member("name"@), doc.member("package_id"@)) {
        (JsonTree::Text(name), JsonTree::Text(package)) => {
            let kinds = doc.member("target"@).member("kind"@);
            a_string_is_listed_when_an_item_is(kinds, "proc-macro"@);
            a_string_is_listed_when_an_item_is(kinds, "custom-build"@);
            match id_version(package) {
                Some(version) => {
                    assert(!compiles(doc, closure, name, package, version));
                },
                None => {},
            }
        },
        _ => {},
    }
}

/// The artifact of an entry is the first library that the message lists in
/// the directory of the triple, and the first metadata where it lists no
/// library there.
pub proof fn the_artifact_is_the_first_library(
    doc: JsonTree,
    closure: Set<Id>,
    triple_dir: Seq<char>,
    before: Seq<Seq<char>>,
    file: Seq<char>,
    after: Seq<Seq<char>>,
)
    requires
        message_entry(doc, closure, triple_dir) is Some,
        doc.member("filenames"@).text_items() == before + seq![file] + after,
        in_dir(file, triple_dir),
    ensures
        ".rlib"@.is_suffix_of(file) && (forall|i: int|
            0 <= i < before.len() ==> !(in_dir(#[trigger] before[i], triple_dir)
                && ".rlib"@.is_suffix_of(before[i]))) ==> message_entry(
            doc,
            closure,
            triple_dir,
        )->Some_0.1.path == file,
        ".rmeta"@.is_suffix_of(file) && (forall|i: int|
            0 <= i < before.len() ==> !(in_dir(#[trigger] before[i], triple_dir)
                && ".rmeta"@.is_suffix_of(before[i]))) && (forall|f: Seq<char>|
            doc.member("filenames"@).text_items().contains(f) && #[trigger] in_dir(f, triple_dir)
                ==> !".rlib"@.is_suffix_of(f)) ==> message_entry(
            doc,
            closure,
            triple_dir,
        )->Some_0.1.path == file,
{
    let files = before + seq![file] + after;
    if ".rlib"@.is_suffix_of(file) && forall|i: int|
        0 <= i < before.len() ==> !(in_dir(#[trigger] before[i], triple_dir)
            && ".rlib"@.is_suffix_of(before[i])) {
        lemma_first_behind(before, file, after, triple_dir, ".rlib"@);
    }
    if ".rmeta"@.is_suffix_of(file) && (forall|i: int|
        0 <= i < before.len() ==> !(in_dir(#[trigger] before[i], triple_dir)
            && ".rmeta"@.is_suffix_of(before[i]))) && (forall|f: Seq<char>|
        files.contains(f) && #[trigger] in_dir(f, triple_dir) ==> !".rlib"@.is_suffix_of(f)) {
        lemma_first_behind(before, file, after, triple_dir, ".rmeta"@);
        lemma_first_file(files, triple_dir, ".rlib"@);
    }
}

proof fn lemma_first_behind(
    before: Seq<Seq<char>>,
    file: Seq<char>,
    after: Seq<Seq<char>>,
    triple_dir: Seq<char>,
    suffix: Seq<char>,
)
    requires
        in_dir(file, triple_dir),
        suffix.is_suffix_of(file),
        forall|i: int|
            0 <= i < before.len() ==> !(in_dir(#[trigger] before[i], triple_dir)
                && suffix.is_suffix_of(before[i])),
    ensures
        first_file(before + seq![file] + after, triple_dir, suffix) == Some(file),
    decreases before.len(),
{
    let all = before + seq![file] + after;
    if before.len() > 0 {
        let rest = before.drop_first();
        assert forall|i: int| 0 <= i < rest.len() implies !(in_dir(#[trigger] rest[i], triple_dir)
            && suffix.is_suffix_of(rest[i])) by {
            assert(rest[i] == before[i + 1]);
        }
        lemma_first_behind(rest, file, after, triple_dir, suffix);
        assert(all[0] == before[0]);
        assert(all.drop_first() =~= rest + seq![file] + after);
    } else {
        assert(all[0] == file);
    }
}

/// A message reports the search paths that it lists, if it is of a build
/// script that ran.
pub proof fn a_build_script_reports_its_search_paths(doc: JsonTree, path: Seq<char>)
    ensures
        message_link_paths(doc).contains(path) <==> doc.member("reason"@) == JsonTree::Text(
            "build-script-executed"@,
        ) && has_item(doc.member("linked_paths"@), path),
{
    a_string_is_listed_when_an_item_is(doc.member("linked_paths"@), path);
}

/// The messages of an output are those of its lines, in their order.
pub proof fn messages_are_read_line_by_line(line: Seq<char>, rest: Seq<char>)
    requires
        !line.contains('\n'),
        line.len() == 0 || line.last() != '\r',
    ensures
        messages_of(line + seq!['\n'] + rest) == (match json_text(line) {
            Some(doc) => seq![doc],
            None => Seq::<JsonTree>::empty(),
        }) + messages_of(rest),
        line.len() > 0 ==> messages_of(line) == match json_text(line) {
            Some(doc) => seq![doc],
            None => Seq::<JsonTree>::empty(),
        },
        messages_of(seq![]) == Seq::<JsonTree>::empty(),
{
    let pick = |l: Seq<char>| json_text(l);
    lines_end_in_line_feeds(line, rest);
    lemma_picked_concat(seq![line], lines(rest), pick);
    lemma_picked_one(line, pick);
    reveal(Seq::filter_map);
}

/// A build is asked of the editor's package with the feature that makes the
/// SDK a library, and a release build in the same way as any other, with the
/// flag for it at the end.
pub proof fn a_release_build_has_one_more_flag(release: bool)
    ensures
        dev_args(true) == dev_args(false).push("--release"@),
        !dev_args(false).contains("--release"@),
        dev_args(release).len() == if release {
            5int
        } else {
            4int
        },
        dev_args(release)[0] == "-p"@ && dev_args(release)[1] == "jackdaw"@,
        dev_args(release)[2] == "--features"@ && dev_args(release)[3] == "dylib"@,
{
    reveal_strlit("--release");
    reveal_strlit("-p");
    reveal_strlit("jackdaw");
    reveal_strlit("--features");
    reveal_strlit("dylib");
    assert("--release"@[2] != "--features"@[2]);
    assert("--release"@.len() != "-p"@.len());
    assert("--release"@.len() != "jackdaw"@.len());
    assert("--release"@.len() != "dylib"@.len());
}

} // verus!
