//! What holds of documents and of package ids, told by what they are put
//! together from.

use vstd::prelude::*;
use crate::json::{tree_of, trees, Json, JsonTree};
use crate::package_id::{crate_name, id_name, id_raw_name, id_version};
use crate::text::{lemma_last_index, lemma_last_index_is};
use crate::text_laws::a_text_is_cut_at_the_last;

verus! {

/// The tree of a document has its shape: texts are texts, items and members
/// stand in their order.
pub proof fn a_tree_has_the_shape_of_the_document(
    text: String,
    flag: bool,
    items: Vec<Json>,
    members: Vec<(String, Json)>,
    json: &Json,
)
    ensures
        Json::Null@ == JsonTree::Null,
        Json::Bool(flag)@ == JsonTree::Bool(flag),
        Json::Number@ == JsonTree::Number,
        Json::Text(text)@ == JsonTree::Text(text@),
        Json::List(items)@ == JsonTree::List(trees(items@)),
        trees(items@).len() == items@.len(),
        forall|i: int| 0 <= i < items@.len() ==> (#[trigger] trees(items@)[i]) == items@[i]@,
        Json::Record(members)@ is Record,
        Json::Record(members)@->Record_0.len() == members@.len(),
        forall|i: int|
            0 <= i < members@.len() ==> (#[trigger] Json::Record(members)@->Record_0[i]) == (
                members@[i].0@,
                members@[i].1@,
            ),
        tree_of(Some(json)) == json@,
        tree_of(None) == JsonTree::Null,
{
    assert(Json::List(items)@->List_0 =~= trees(items@));
}

/// A member is found under its key wherever it stands, the first of that key.
/// A key that is not there gives null, and so does anything but a record.
pub proof fn members_are_found_by_key(
    before: Seq<(Seq<char>, JsonTree)>,
    key: Seq<char>,
    value: JsonTree,
    after: Seq<(Seq<char>, JsonTree)>,
)
    requires
        forall|i: int| 0 <= i < before.len() ==> (#[trigger] before[i]).0 != key,
    ensures
        JsonTree::Record(before + seq![(key, value)] + after).member(key) == value,
        JsonTree::Record(before).member(key) == JsonTree::Null,
    decreases before.len(),
{
    let all = before + seq![(key, value)] + after;
    if before.len() > 0 {
        let rest = before.drop_first();
        assert forall|i: int| 0 <= i < rest.len() implies (#[trigger] rest[i]).0 != key by {
            assert(before[i + 1].0 != key);
        }
        members_are_found_by_key(rest, key, value, after);
        assert(before[0].0 != key);
        assert(all.drop_first() =~= rest + seq![(key, value)] + after);
    } else {
        assert(all[0] == (key, value));
    }
}

/// Only records have members, only strings are texts, only lists have items.
pub proof fn shapes_are_told_apart(
    key: Seq<char>,
    text: Seq<char>,
    items: Seq<JsonTree>,
    members: Seq<(Seq<char>, JsonTree)>,
    flag: bool,
)
    ensures
        JsonTree::Text(text).text() == Some(text),
        JsonTree::List(items).list() == Some(items),
        JsonTree::List(items).items() == items,
        JsonTree::Text(text).member(key) == JsonTree::Null,
        JsonTree::List(items).member(key) == JsonTree::Null,
        JsonTree::Null.member(key) == JsonTree::Null,
        JsonTree::List(items).text() is None,
        JsonTree::Record(members).text() is None,
        JsonTree::Null.text() is None,
        JsonTree::Number.text() is None,
        JsonTree::Bool(flag).text() is None,
        JsonTree::Text(text).items().len() == 0,
        JsonTree::Record(members).items().len() == 0,
        JsonTree::Null.items().len() == 0,
        JsonTree::Null.list() is None,
        JsonTree::Text(text).list() is None,
        JsonTree::Record(members).list() is None,
{
}

/// The strings of a list are those of its items, in their order: of two lists
/// together, those of the one and then of the other.
pub proof fn strings_of_lists_follow_each_other(
    a: Seq<JsonTree>,
    b: Seq<JsonTree>,
    text: Seq<char>,
    other: JsonTree,
)
    requires
        !(other is Text),
    ensures
        JsonTree::List(a + b).text_items() == JsonTree::List(a).text_items() + JsonTree::List(
            b,
        ).text_items(),
        JsonTree::List(seq![JsonTree::Text(text)]).text_items() == seq![text],
        JsonTree::List(seq![other]).text_items() == Seq::<Seq<char>>::empty(),
        JsonTree::List(seq![]).text_items() == Seq::<Seq<char>>::empty(),
{
    let pick = |j: JsonTree| j.text();
    lemma_picked_concat(a, b, pick);
    lemma_picked_one(JsonTree::Text(text), pick);
    lemma_picked_one(other, pick);
    reveal(Seq::filter_map);
}

/// A filtering map goes over two sequences one after the other.
pub proof fn lemma_picked_concat<A, B>(a: Seq<A>, b: Seq<A>, pick: spec_fn(A) -> Option<B>)
    ensures
        (a + b).filter_map(pick) == a.filter_map(pick) + b.filter_map(pick),
    decreases b.len(),
{
    reveal(Seq::filter_map);
    if b.len() == 0 {
        assert(a + b =~= a);
        assert(a.filter_map(pick) + b.filter_map(pick) =~= a.filter_map(pick));
    } else {
        lemma_picked_concat(a, b.drop_last(), pick);
        assert((a + b).drop_last() =~= a + b.drop_last());
        assert((a + b).last() == b.last());
        assert((a + b).filter_map(pick) =~= a.filter_map(pick) + b.filter_map(pick));
    }
}

/// A filtering map keeps what it makes of a single element, or nothing.
pub proof fn lemma_picked_one<A, B>(x: A, pick: spec_fn(A) -> Option<B>)
    ensures
        seq![x].filter_map(pick) == match pick(x) {
            Some(y) => seq![y],
            None => Seq::<B>::empty(),
        },
{
    reveal(Seq::filter_map);
    assert(seq![x].drop_last() =~= Seq::<A>::empty());
    assert(Seq::<A>::empty().filter_map(pick) =~= Seq::<B>::empty());
    assert(seq![x].last() == x);
}

/// A string is among those of a document exactly when the document is a list
/// and one of its items is that string.
pub proof fn a_string_is_listed_when_an_item_is(doc: JsonTree, f: Seq<char>)
    ensures
        doc.text_items().contains(f) <==> exists|i: int|
            doc is List && 0 <= i < doc->List_0.len() && (#[trigger] doc->List_0[i])
                == JsonTree::Text(f),
{
    let pick = |j: JsonTree| j.text();
    let items = doc.items();
    let found = doc.text_items();
    if found.contains(f) {
        let i = choose|i: int| 0 <= i < found.len() && found[i] == f;
        let k = crate::plan_laws::lemma_picked(items, pick, i);
        assert(items[k] == JsonTree::Text(f));
        assert(doc->List_0[k] == JsonTree::Text(f));
    }
    if exists|i: int|
        doc is List && 0 <= i < doc->List_0.len() && (#[trigger] doc->List_0[i])
            == JsonTree::Text(f) {
        let k = choose|i: int|
            doc is List && 0 <= i < doc->List_0.len() && (#[trigger] doc->List_0[i])
                == JsonTree::Text(f);
        assert(items[k] == JsonTree::Text(f));
        crate::plan_laws::lemma_kept(items, pick, k);
    }
}

/// A registry id carries the name and the version of a package.
pub proof fn a_registry_id_names_name_and_version(
    source: Seq<char>,
    name: Seq<char>,
    version: Seq<char>,
)
    requires
        !name.contains('#'),
        !version.contains('#'),
        !version.contains('@'),
    ensures
        id_version(source + seq!['#'] + (name + seq!['@'] + version)) == Some(version),
        id_raw_name(source + seq!['#'] + (name + seq!['@'] + version)) == Some(name),
        id_name(source + seq!['#'] + (name + seq!['@'] + version)) == Some(crate_name(name)),
{
    let fragment = name + seq!['@'] + version;
    assert(!fragment.contains('#')) by {
        if fragment.contains('#') {
            let k = choose|k: int| 0 <= k < fragment.len() && fragment[k] == '#';
            if k < name.len() {
                assert(name[k] == '#');
            } else {
                assert(version[k - name.len() - 1] == '#');
            }
        }
    }
    a_text_is_cut_at_the_last(source, '#', fragment);
    a_text_is_cut_at_the_last(name, '@', version);
}

/// A path id carries the version alone, and the name is the last segment of
/// the path.
pub proof fn a_path_id_is_named_by_its_last_segment(
    dir: Seq<char>,
    segment: Seq<char>,
    version: Seq<char>,
)
    requires
        !segment.contains('/'),
        !version.contains('#'),
        !version.contains('@'),
    ensures
        id_version(dir + seq!['/'] + segment + seq!['#'] + version) == Some(version),
        id_raw_name(dir + seq!['/'] + segment + seq!['#'] + version) == Some(segment),
        id_raw_name(segment + seq!['#'] + version) == Some(segment),
        id_name(dir + seq!['/'] + segment + seq!['#'] + version) == Some(crate_name(segment)),
{
    let base = dir + seq!['/'] + segment;
    a_text_is_cut_at_the_last(base, '#', version);
    a_text_is_cut_at_the_last(segment, '#', version);
    assert forall|i: int| dir.len() < i < base.len() implies base[i] != '/' by {
        assert(segment[i - dir.len() - 1] == base[i]);
    }
    lemma_last_index_is(base, '/', dir.len() as int);
    assert(base.skip(dir.len() as int + 1) =~= segment);
    lemma_last_index(segment, '/');
    assert(segment.skip(0) =~= segment);
    lemma_last_index(version, '@');
}

/// An id without a fragment names nothing.
pub proof fn an_id_without_a_fragment_names_nothing(id: Seq<char>)
    requires
        !id.contains('#'),
    ensures
        id_version(id) is None,
        id_raw_name(id) is None,
        id_name(id) is None,
{
    lemma_last_index(id, '#');
}

/// A crate is named as its package with underscores for dashes.
pub proof fn a_crate_is_named_with_underscores(name: Seq<char>)
    ensures
        crate_name(name).len() == name.len(),
        forall|i: int|
            0 <= i < name.len() ==> (#[trigger] crate_name(name)[i]) == if name[i] == '-' {
                '_'
            } else {
                name[i]
            },
{
}

} // verus!
