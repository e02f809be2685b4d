//! JSON documents as cargo writes them.
//!
//! `serde_json` parses; what it parsed is read into [`Json`], the tree that
//! the rest of the library works on. Numbers carry no information that the
//! library reads, so their value is not kept.

use vstd::prelude::*;

use crate::text::{same, texts};

verus! {

/// `serde_json::Value`, a parsed document.
#[verifier::external_type_specification]
#[verifier::external_body]
pub struct ExValue(serde_json::Value);

/// A JSON document.
pub enum Json {
    Null,
    Bool(bool),
    Number,
    Text(String),
    List(Vec<Json>),
    Record(Vec<(String, Json)>),
}

/// A JSON document as a mathematical tree.
#[verifier::ext_equal]
pub enum JsonTree {
    Null,
    Bool(bool),
    Number,
    Text(Seq<char>),
    List(Seq<JsonTree>),
    Record(Seq<(Seq<char>, JsonTree)>),
}

impl View for Json {
    type V = JsonTree;

    open spec fn view(&self) -> JsonTree
        decreases self,
    {
        match self {
            Json::Null => JsonTree::Null,
            Json::Bool(b) => JsonTree::Bool(*b),
            Json::Number => JsonTree::Number,
            Json::Text(s) => JsonTree::Text(s@),
            Json::List(items) => JsonTree::List(
                Seq::new(
                    items@.len(),
                    |i: int|
                        if 0 <= i < items@.len() {
                            items@[i].view()
                        } else {
                            JsonTree::Null
                        },
                ),
            ),
            Json::Record(members) => JsonTree::Record(
                Seq::new(
                    members@.len(),
                    |i: int|
                        (
                            members@[i].0@,
                            if 0 <= i < members@.len() {
                                members@[i].1.view()
                            } else {
                                JsonTree::Null
                            },
                        ),
                ),
            ),
        }
    }
}

/// The trees of a sequence of documents.
pub open spec fn trees(s: Seq<Json>) -> Seq<JsonTree> {
    s.map_values(|j: Json| j@)
}

/// The value of the first member named `key`, or null.
pub open spec fn lookup(members: Seq<(Seq<char>, JsonTree)>, key: Seq<char>) -> JsonTree
    decreases members.len(),
{
    if members.len() == 0 {
        JsonTree::Null
    } else if members[0].0 == key {
        members[0].1
    } else {
        lookup(members.drop_first(), key)
    }
}

impl JsonTree {
    /// The member named `key`; null where there is none to be had.
    pub open spec fn member(self, key: Seq<char>) -> JsonTree {
        match self {
            JsonTree::Record(members) => lookup(members, key),
            _ => JsonTree::Null,
        }
    }

    /// The string that the document is.
    pub open spec fn text(self) -> Option<Seq<char>> {
        match self {
            JsonTree::Text(s) => Some(s),
            _ => None,
        }
    }

    /// The list that the document is.
    pub open spec fn list(self) -> Option<Seq<JsonTree>> {
        match self {
            JsonTree::List(items) => Some(items),
            _ => None,
        }
    }

    /// The items of the list that the document is; none where it is no list.
    pub open spec fn items(self) -> Seq<JsonTree> {
        match self {
            JsonTree::List(items) => items,
            _ => seq![],
        }
    }

    /// The strings among the items of the list that the document is.
    pub open spec fn text_items(self) -> Seq<Seq<char>> {
        self.items().filter_map(|j: JsonTree| j.text())
    }
}

/// The tree of a document that may be missing: null where it is.
pub open spec fn tree_of(j: Option<&Json>) -> JsonTree {
    match j {
        Some(j) => j@,
        None => JsonTree::Null,
    }
}

impl Json {
    /// The member named `key` of a record; `None` where there is none.
    pub fn member(&self, key: &str) -> (r: Option<&Json>)
        ensures
            tree_of(r) == self@.member(key@),
    {
        match self {
            Json::Record(members) => {
                let ghost all = members@.map_values(|m: (String, Json)| (m.0@, m.1@));
                assert(self@->Record_0 =~= all);
                assert(all.skip(0) == all);
                for i in 0..members.len()
                    invariant
                        self@ == JsonTree::Record(all),
                        all.len() == members@.len(),
                        forall|j: int|
                            0 <= j < all.len() ==> #[trigger] all[j] == (
                                members@[j].0@,
                                members@[j].1@,
                            ),
                        lookup(all, key@) == lookup(all.skip(i as int), key@),
                {
                    assert(all.skip(i as int)[0] == all[i as int]);
                    if same(&members[i].0, key) {
                        return Some(&members[i].1);
                    }
                    assert(all.skip(i as int).drop_first() == all.skip(i + 1));
                }
                None
            },
            _ => None,
        }
    }

    /// The string that the document is.
    pub fn text(&self) -> (r: Option<&String>)
        ensures
            match self@.text() {
                Some(t) => r matches Some(s) && s@ == t,
                None => r is None,
            },
    {
        match self {
            Json::Text(s) => Some(s),
            _ => None,
        }
    }

    /// The list that the document is.
    pub fn list(&self) -> (r: Option<&Vec<Json>>)
        ensures
            match self@.list() {
                Some(t) => r matches Some(v) && trees(v@) == t,
                None => r is None,
            },
    {
        match self {
            Json::List(items) => {
                assert(trees(items@) == self@->List_0);
                Some(items)
            },
            _ => None,
        }
    }
}

/// The member named `key` of a document that may be missing.
pub fn member_of<'a>(j: Option<&'a Json>, key: &str) -> (r: Option<&'a Json>)
    ensures
        tree_of(r) == tree_of(j).member(key@),
{
    match j {
        Some(j) => j.member(key),
        None => None,
    }
}

/// The string that a document is, if it is there and is one.
pub fn text_of(j: Option<&Json>) -> (r: Option<String>)
    ensures
        match tree_of(j).text() {
            Some(t) => r matches Some(s) && s@ == t,
            None => r is None,
        },
{
    match j {
        Some(j) => match j.text() {
            Some(s) => Some(s.clone()),
            None => None,
        },
        None => None,
    }
}

/// The list that a document is, if it is there and is one.
pub fn list_of<'a>(j: Option<&'a Json>) -> (r: Option<&'a Vec<Json>>)
    ensures
        match tree_of(j).list() {
            Some(t) => r matches Some(v) && trees(v@) == t,
            None => r is None,
        },
{
    match j {
        Some(j) => j.list(),
        None => None,
    }
}

/// The strings among the items of a document that may be missing.
pub fn text_items_of(j: Option<&Json>) -> (r: Vec<String>)
    ensures
        texts(r@) == tree_of(j).text_items(),
{
    let mut out: Vec<String> = Vec::new();
    let ghost pick = |j: JsonTree| j.text();
    match list_of(j) {
        None => {
            proof {
                assert(tree_of(j).items() =~= Seq::<JsonTree>::empty());
                reveal(Seq::filter_map);
                assert(texts(out@) =~= Seq::<Seq<char>>::empty());
            }
            out
        },
        Some(items) => {
            let ghost all = trees(items@);
            proof {
                reveal(Seq::filter_map);
                assert(all.take(0) =~= Seq::<JsonTree>::empty());
                assert(texts(out@) =~= Seq::<Seq<char>>::empty());
            }
            for i in 0..items.len()
                invariant
                    all == trees(items@),
                    pick == (|j: JsonTree| j.text()),
                    texts(out@) == all.take(i as int).filter_map(pick),
            {
                let ghost before = out@;
                proof {
                    all.lemma_filter_map_take_succ(pick, i as int);
                }
                match items[i].text() {
                    Some(s) => {
                        out.push(s.clone());
                        assert(texts(out@) == texts(before).push(s@));
                    },
                    None => {},
                }
                assert(texts(out@) == all.take(i + 1).filter_map(pick));
            }
            assert(all.take(all.len() as int) == all);
            out
        },
    }
}

/// What a parsed value holds.
pub uninterp spec fn json_tree(v: serde_json::Value) -> JsonTree;

/// What `serde_json` parses from a text.
pub uninterp spec fn json_text(text: Seq<char>) -> Option<JsonTree>;

/// What `serde_json` parses from bytes, or the text of its error.
pub uninterp spec fn json_bytes(bytes: Seq<u8>) -> Result<JsonTree, Seq<char>>;

/// The outermost layer of a parsed value.
pub enum Layer<'a> {
    Null,
    Bool(bool),
    Number,
    Text(&'a String),
    List(&'a Vec<serde_json::Value>),
    Record(Vec<(&'a String, &'a serde_json::Value)>),
}

/// The tree that a layer is the root of.
pub open spec fn layer_tree(layer: Layer) -> JsonTree {
    match layer {
        Layer::Null => JsonTree::Null,
        Layer::Bool(b) => JsonTree::Bool(b),
        Layer::Number => JsonTree::Number,
        Layer::Text(s) => JsonTree::Text(s@),
        Layer::List(items) => JsonTree::List(
            items@.map_values(|v: serde_json::Value| json_tree(v)),
        ),
        Layer::Record(members) => JsonTree::Record(
            members@.map_values(|m: (&String, &serde_json::Value)| (m.0@, json_tree(*m.1))),
        ),
    }
}

/// Tells the variants of `serde_json::Value` apart. A list hands out its
/// items and an object its members, as `serde_json::Map::iter` walks them.
#[verifier::external_body]
fn layer(v: &serde_json::Value) -> (r: Layer<'_>)
    ensures
        layer_tree(r) == json_tree(*v),
{
    match v {
        serde_json::Value::Null => Layer::Null,
        serde_json::Value::Bool(b) => Layer::Bool(*b),
        serde_json::Value::Number(_) => Layer::Number,
        serde_json::Value::String(s) => Layer::Text(s),
        serde_json::Value::Array(items) => Layer::List(items),
        serde_json::Value::Object(members) => Layer::Record(members.iter().collect()),
    }
}

/// `serde_json::from_str`: what it parses depends on the text alone.
#[verifier::external_body]
fn value_from_str(text: &str) -> (r: Option<serde_json::Value>)
    ensures
        match json_text(text@) {
            Some(t) => r matches Some(v) && json_tree(v) == t,
            None => r is None,
        },
{
    serde_json::from_str::<serde_json::Value>(text).ok()
}

/// `serde_json::from_slice`: what it parses, and the text of its error,
/// depend on the bytes alone.
#[verifier::external_body]
fn value_from_slice(bytes: &[u8]) -> (r: Result<serde_json::Value, String>)
    ensures
        match json_bytes(bytes@) {
            Ok(t) => r matches Ok(v) && json_tree(v) == t,
            Err(e) => r matches Err(s) && s@ == e,
        },
{
    serde_json::from_slice::<serde_json::Value>(bytes).map_err(|e| e.to_string())
}

/// Reads a parsed value into a tree of the library's own.
fn read_value(v: &serde_json::Value) -> (r: Json)
    ensures
        r@ == json_tree(*v),
    decreases json_tree(*v),
{
    let ghost whole = json_tree(*v);
    match layer(v) {
        Layer::Null => Json::Null,
        Layer::Bool(b) => Json::Bool(b),
        Layer::Number => Json::Number,
        Layer::Text(s) => Json::Text(s.clone()),
        Layer::List(items) => {
            let mut out: Vec<Json> = Vec::new();
            let ghost all = whole->List_0;
            for i in 0..items.len()
                invariant
                    json_tree(*v) == JsonTree::List(all),
                    all == items@.map_values(|v: serde_json::Value| json_tree(v)),
                    trees(out@) == all.take(i as int),
            {
                assert(json_tree(items@[i as int]) == all[i as int]);
                let ghost t = json_tree(*v);
                assert(decreases_to!(t => t->List_0));
                assert(decreases_to!(t->List_0 => t->List_0[i as int]));
                let ghost before = out@;
                let item = read_value(&items[i]);
                out.push(item);
                assert(trees(out@) == trees(before).push(item@));
                assert(trees(out@) == all.take(i + 1));
            }
            assert(all.take(all.len() as int) == all);
            let r = Json::List(out);
            assert(r@->List_0 =~= trees(out@));
            r
        },
        Layer::Record(members) => {
            let mut out: Vec<(String, Json)> = Vec::new();
            let ghost all = whole->Record_0;
            for i in 0..members.len()
                invariant
                    json_tree(*v) == JsonTree::Record(all),
                    all == members@.map_values(
                        |m: (&String, &serde_json::Value)| (m.0@, json_tree(*m.1)),
                    ),
                    out@.len() == i,
                    forall|j: int|
                        0 <= j < i ==> (#[trigger] out@[j].0@, out@[j].1@) == all[j],
            {
                let (key, value) = members[i];
                assert(all[i as int] == (key@, json_tree(*value)));
                let ghost t = json_tree(*v);
                assert(decreases_to!(t => t->Record_0));
                assert(decreases_to!(t->Record_0 => t->Record_0[i as int]));
                assert(decreases_to!(t->Record_0[i as int] => t->Record_0[i as int].1));
                out.push((key.clone(), read_value(value)));
            }
            let r = Json::Record(out);
            assert(r@->Record_0 =~= all);
            r
        },
    }
}

/// The document that a text holds; `None` where it holds none.
pub fn parse_text(text: &str) -> (r: Option<Json>)
    ensures
        match json_text(text@) {
            Some(t) => r matches Some(j) && j@ == t,
            None => r is None,
        },
{
    match value_from_str(text) {
        Some(v) => Some(read_value(&v)),
        None => None,
    }
}

/// The document that the bytes hold, or the text of the parse error.
pub fn parse_bytes(bytes: &[u8]) -> (r: Result<Json, String>)
    ensures
        match json_bytes(bytes@) {
            Ok(t) => r matches Ok(j) && j@ == t,
            Err(e) => r matches Err(s) && s@ == e,
        },
{
    match value_from_slice(bytes) {
        Ok(v) => Ok(read_value(&v)),
        Err(e) => Err(e),
    }
}

} // verus!
