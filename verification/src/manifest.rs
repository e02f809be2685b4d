//! The SDK's runtime closure, with the artifact each crate compiled to.
//!
//! The manifest file has one line per crate: `name version features path`,
//! where `features` is comma-separated, or `-` when there are none. Manifests
//! written before features were recorded have `name version path` instead; an
//! artifact path always contains a separator or ends in a library extension,
//! and a feature list never does.

use vstd::prelude::*;
use vstd::string::StringExecFns;

use crate::error::PlanError;
use crate::host::{absolute_on, on_share, path_is_absolute, server_len};
use crate::order::{ascending, lemma_ascends_distinct, OrderedMap, OrderedSet};
use crate::text::{chars_of, contains_char, cut_first, find_from, has_suffix, join, joined, line_list, lines, pieces, same, split, split_once, terminated, texts};

verus! {

/// A set of cargo features.
pub type Features = OrderedSet<String>;

/// What names a crate: its name, with underscores, and its version.
pub type Id = (Seq<char>, Seq<char>);

/// One SDK crate as it was compiled.
pub struct SdkArtifact {
    features: Features,
    path: String,
}

/// An artifact as the features it was compiled with and its path.
pub struct Artifact {
    pub features: Set<Seq<char>>,
    pub path: Seq<char>,
}

impl View for SdkArtifact {
    type V = Artifact;

    closed spec fn view(&self) -> Artifact {
        Artifact { features: self.features@, path: self.path@ }
    }
}

/// The SDK's runtime closure: which artifact each crate compiled to.
pub struct SdkManifest {
    artifacts: OrderedMap<(String, String), SdkArtifact>,
}

impl View for SdkManifest {
    type V = Map<Id, Artifact>;

    closed spec fn view(&self) -> Map<Id, Artifact> {
        self.artifacts@
    }
}

/// Whether a manifest field is an artifact path rather than a feature list.
pub open spec fn path_like(field: Seq<char>) -> bool {
    ||| field.contains('/')
    ||| field.contains('\\')
    ||| ".rlib"@.is_suffix_of(field)
    ||| ".rmeta"@.is_suffix_of(field)
}

/// The features that a field lists; `-` means none.
pub open spec fn listed_features(field: Seq<char>) -> Set<Seq<char>> {
    if field == "-"@ {
        Set::empty()
    } else {
        split(field, ',').to_set().remove(seq![])
    }
}

/// What a manifest line says. A line without features, in the older form,
/// has its path behind the second space.
pub open spec fn line_entry(line: Seq<char>) -> Option<(Id, Artifact)> {
    match split_once(line, ' ') {
        None => None,
        Some((name, rest)) => match split_once(rest, ' ') {
            None => None,
            Some((version, rest)) => Some(((name, version), field_artifact(rest))),
        },
    }
}

/// What a line says behind its second space.
pub open spec fn field_artifact(rest: Seq<char>) -> Artifact {
    match split_once(rest, ' ') {
        Some((field, path)) => if path_like(field) {
            Artifact { features: Set::empty(), path: rest }
        } else {
            Artifact { features: listed_features(field), path }
        },
        None => Artifact { features: Set::empty(), path: rest },
    }
}

/// What manifest lines say together: a later line for a crate replaces an
/// earlier one. The first line that says nothing is the error.
pub open spec fn entries_of(ls: Seq<Seq<char>>) -> Result<Map<Id, Artifact>, Seq<char>>
    decreases ls.len(),
{
    if ls.len() == 0 {
        Ok(Map::empty())
    } else {
        match entries_of(ls.drop_last()) {
            Err(line) => Err(line),
            Ok(m) => match line_entry(ls.last()) {
                Some((id, artifact)) => Ok(m.insert(id, artifact)),
                None => Err(ls.last()),
            },
        }
    }
}

/// How features are written: in ascending order, `-` for none.
pub open spec fn feature_field(features: Set<Seq<char>>) -> Seq<char> {
    if features == Set::<Seq<char>>::empty() {
        "-"@
    } else {
        join(ascending::<String>(features), ","@)
    }
}

/// How an entry is written.
pub open spec fn entry_line(id: Id, artifact: Artifact) -> Seq<char> {
    id.0 + " "@ + id.1 + " "@ + feature_field(artifact.features) + " "@ + artifact.path
}

/// The keys of a manifest in the order they are written in.
pub open spec fn ids(m: Map<Id, Artifact>) -> Seq<Id> {
    ascending::<(String, String)>(m.dom())
}

/// The lines of a manifest file.
pub open spec fn manifest_lines(m: Map<Id, Artifact>) -> Seq<Seq<char>> {
    ids(m).map_values(|id: Id| entry_line(id, m[id]))
}

/// Whether a manifest field is an artifact path rather than a feature
/// list. Used to read manifests written before features were recorded.
pub fn looks_like_path(field: &str) -> (r: bool)
    ensures
        r == path_like(field@),
{
    contains_char(field, '/') || contains_char(field, '\\') || has_suffix(field, ".rlib")
        || has_suffix(field, ".rmeta")
}

/// Parses a comma-separated feature field; `-` means none.
pub fn parse_features(field: &str) -> (r: Features)
    ensures
        r.wf(),
        r@ == listed_features(field@),
{
    let mut out: Features = OrderedSet::new();
    if same(field, "-") {
        return out;
    }
    let parts = pieces(field, ',');
    let ghost all = split(field@, ',');
    assert(all.take(0).to_set().remove(seq![]) =~= Set::<Seq<char>>::empty());
    for i in 0..parts.len()
        invariant
            texts(parts@) == all,
            out.wf(),
            out@ == all.take(i as int).to_set().remove(seq![]),
    {
        let part = &parts[i];
        assert(part@ == all[i as int]);
        proof {
            assert(all.take(i + 1) == all.take(i as int).push(part@));
            all.take(i as int).lemma_push_to_set_commute(part@);
        }
        if !part.as_str().is_empty() {
            out = out.insert(part.clone());
            assert(out@ =~= all.take(i + 1).to_set().remove(seq![]));
        } else {
            assert(part@ =~= seq![]);
            assert(out@ =~= all.take(i + 1).to_set().remove(seq![]));
        }
    }
    assert(all.take(all.len() as int) == all);
    out
}

impl SdkManifest {
    pub closed spec fn wf(&self) -> bool {
        &&& self.artifacts.wf()
        &&& forall|i: int|
            0 <= i < self.artifacts.keys().len() ==> (#[trigger] self.artifacts.value(
                i,
            )).features.wf()
    }

    /// A manifest of nothing.
    pub fn new() -> (r: Self)
        ensures
            r.wf(),
            r@ == Map::<Id, Artifact>::empty(),
    {
        let artifacts = OrderedMap::new();
        proof {
            artifacts.lemma_contents();
        }
        SdkManifest { artifacts }
    }

    /// The manifest with one more crate, in place of an entry of the same
    /// name and version.
    pub fn insert(self, name: &str, version: &str, features: Features, path: &str) -> (r: Self)
        requires
            self.wf(),
            features.wf(),
        ensures
            r.wf(),
            r@ == self@.insert(
                (name@, version@),
                (Artifact { features: features@, path: path@ }),
            ),
    {
        let artifact = SdkArtifact { features, path: path.to_owned() };
        SdkManifest {
            artifacts: self.artifacts.insert((name.to_owned(), version.to_owned()), artifact),
        }
    }

    /// Reads the contents of a manifest file.
    ///
    /// An entry in the older form loads with no features, which
    /// [`covers_features`](Self::covers_features) then treats as "cannot
    /// prove it covers anything".
    pub fn load(contents: &str) -> (r: Result<Self, PlanError>)
        ensures
            match entries_of(lines(contents@)) {
                Ok(m) => r matches Ok(s) && s.wf() && s@ == m,
                Err(line) => r matches Err(PlanError::Parse(message)) && message@
                    == "bad manifest line: "@ + line,
            },
    {
        let found = line_list(contents);
        let ghost all = lines(contents@);
        let mut manifest = SdkManifest::new();
        assert(all.take(0) =~= Seq::<Seq<char>>::empty());
        for i in 0..found.len()
            invariant
                all == lines(contents@),
                texts(found@) == all,
                manifest.wf(),
                entries_of(all.take(i as int)) == Ok::<Map<Id, Artifact>, Seq<char>>(manifest@),
        {
            let line = &found[i];
            assert(line@ == all[i as int]);
            assert(all.take(i + 1).drop_last() == all.take(i as int));
            match Self::parse_line(line) {
                Some((name, version, features, path)) => {
                    manifest = manifest.insert(&name, &version, features, &path);
                },
                None => {
                    proof {
                        lemma_first_error(all, i as int);
                    }
                    return Err(PlanError::Parse("bad manifest line: ".to_owned().concat(line)));
                },
            }
        }
        assert(all.take(all.len() as int) == all);
        Ok(manifest)
    }

    /// The fields of a manifest line; `None` when there are too few.
    fn parse_line(line: &str) -> (r: Option<(String, String, Features, String)>)
        ensures
            match line_entry(line@) {
                Some((id, artifact)) => r matches Some((name, version, features, path)) && name@
                    == id.0 && version@ == id.1 && features.wf() && features@ == artifact.features
                    && path@ == artifact.path,
                None => r is None,
            },
    {
        let (name, rest) = match cut_first(line, ' ') {
            Some(cut) => cut,
            None => return None,
        };
        let (version, rest) = match cut_first(&rest, ' ') {
            Some(cut) => cut,
            None => return None,
        };
        match cut_first(&rest, ' ') {
            Some((field, path)) => {
                if looks_like_path(&field) {
                    Some((name, version, OrderedSet::new(), rest))
                } else {
                    Some((name, version, parse_features(&field), path))
                }
            },
            None => Some((name, version, OrderedSet::new(), rest)),
        }
    }

    /// The contents of the manifest file.
    pub fn write(&self) -> (r: String)
        requires
            self.wf(),
        ensures
            r@ == terminated(manifest_lines(self@)),
    {
        let ghost all = manifest_lines(self@);
        proof {
            self.lemma_ids();
        }
        let mut out = String::new();
        let n: usize = self.artifacts.len();
        assert(terminated(all.take(0)) =~= Seq::<char>::empty());
        for i in 0..n
            invariant
                self.wf(),
                n == self.artifacts.keys().len(),
                all == manifest_lines(self@),
                all.len() == n,
                out@ == terminated(all.take(i as int)),
        {
            let (name, version) = self.artifacts.key_at(i);
            let artifact = self.artifacts.value_at(i);
            proof {
                self.lemma_ids();
                artifact.features.lemma_contents();
                assert(all.take(i + 1).drop_last() == all.take(i as int));
            }
            let features = if artifact.features.len() == 0 {
                assert(artifact.features@ =~= Set::<Seq<char>>::empty());
                "-".to_owned()
            } else {
                joined(&artifact.features.list(), ",")
            };
            let ghost before = out@;
            out.append(name);
            out.append(" ");
            out.append(version);
            out.append(" ");
            out.append(&features);
            out.append(" ");
            out.append(&artifact.path);
            out.append("\n");
            proof {
                reveal_strlit("\n");
                let id = self.artifacts.keys()[i as int];
                assert(self@.dom().contains(id));
                assert(all[i as int] == entry_line(id, self@[id]));
                assert(out@ =~= before + entry_line(id, self@[id]) + seq!['\n']);
            }
        }
        assert(all.take(all.len() as int) == all);
        out
    }

    /// The keys as they are kept, and the values with them.
    proof fn lemma_ids(&self)
        requires
            self.wf(),
        ensures
            ids(self@) == self.artifacts.keys(),
            self@.dom().finite(),
            self@.dom() == self.artifacts.keys().to_set(),
            self@.dom().len() == self.artifacts.keys().len(),
            self.artifacts.keys().no_duplicates(),
            forall|i: int|
                0 <= i < self.artifacts.keys().len() ==> {
                    &&& #[trigger] self@.dom().contains(self.artifacts.keys()[i])
                    &&& self@[self.artifacts.keys()[i]] == self.artifacts.value(i)@
                },
    {
        self.artifacts.lemma_contents();
        lemma_ascends_distinct::<(String, String)>(self.artifacts.keys());
    }

    /// The keys of a manifest are listed once each, and so are the features
    /// of each entry.
    pub proof fn lemma_listed(&self)
        requires
            self.wf(),
        ensures
            self@.dom().finite(),
            ids(self@).to_set() == self@.dom(),
            ids(self@).no_duplicates(),
            forall|id: Id| #[trigger]
                self@.dom().contains(id) ==> ascending::<String>(self@[id].features).to_set()
                    == self@[id].features,
    {
        self.lemma_ids();
        assert forall|id: Id| #[trigger] self@.dom().contains(id) implies ascending::<String>(
            self@[id].features,
        ).to_set() == self@[id].features by {
            let keys = self.artifacts.keys();
            let i = choose|i: int| 0 <= i < keys.len() && keys[i] == id;
            assert(self@.dom().contains(self.artifacts.keys()[i]));
            self.artifacts.value(i).features.lemma_contents();
        }
    }

    /// How many crates the manifest lists.
    pub fn len(&self) -> (r: usize)
        requires
            self.wf(),
        ensures
            r == self@.dom().len(),
    {
        self.artifacts.len()
    }

    /// Whether the manifest lists nothing.
    pub fn is_empty(&self) -> (r: bool)
        requires
            self.wf(),
        ensures
            r == (self@ == Map::<Id, Artifact>::empty()),
    {
        proof {
            self.lemma_ids();
        }
        let r = self.artifacts.len() == 0;
        proof {
            if r {
                assert(self@ =~= Map::<Id, Artifact>::empty());
            }
        }
        r
    }

    /// The entry for a crate.
    fn entry(&self, name: &str, version: &str) -> (r: Option<&SdkArtifact>)
        requires
            self.wf(),
        ensures
            match r {
                Some(a) => self@.dom().contains((name@, version@)) && self@[(name@, version@)]
                    == a@ && a.features.wf(),
                None => !self@.dom().contains((name@, version@)),
            },
    {
        self.artifacts.get(&(name.to_owned(), version.to_owned()))
    }

    /// The artifact of a crate at a version.
    pub fn artifact(&self, name: &str, version: &str) -> (r: Option<&str>)
        requires
            self.wf(),
        ensures
            match r {
                Some(path) => self@.dom().contains((name@, version@)) && path@ == self@[(
                    name@,
                    version@,
                )].path,
                None => !self@.dom().contains((name@, version@)),
            },
    {
        match self.entry(name, version) {
            Some(artifact) => Some(artifact.path.as_str()),
            None => None,
        }
    }

    /// Whether the SDK's build of `name@version` was compiled with every
    /// feature of `wanted`.
    ///
    /// An entry whose features are unknown covers nothing but the empty
    /// request, so a stale manifest degrades to fewer redirects rather than
    /// to artifacts that are missing what the consumer expects.
    pub fn covers_features(&self, name: &str, version: &str, wanted: &Features) -> (r: bool)
        requires
            self.wf(),
            wanted.wf(),
        ensures
            r == covers(self@, (name@, version@), wanted@),
    {
        match self.entry(name, version) {
            Some(artifact) => wanted.is_subset(&artifact.features),
            None => false,
        }
    }

    /// The features of `wanted` that the SDK's build of `name@version` does
    /// not have, comma-separated. Empty when the SDK covers them, or has no
    /// entry to compare.
    pub fn feature_shortfall(&self, name: &str, version: &str, wanted: &Features) -> (r: String)
        requires
            self.wf(),
            wanted.wf(),
        ensures
            r@ == shortfall(self@, (name@, version@), wanted@),
    {
        match self.entry(name, version) {
            Some(artifact) => joined(&wanted.difference(&artifact.features), ","),
            None => String::new(),
        }
    }

    /// How many versions of a crate the SDK holds.
    pub fn version_count(&self, name: &str) -> (r: usize)
        requires
            self.wf(),
        ensures
            r == versions(self@, name@).len(),
    {
        let n: usize = self.artifacts.len();
        let mut count: usize = 0;
        let ghost keys = self.artifacts.keys();
        let ghost pred = is_named(name@);
        proof {
            reveal(Seq::filter);
            assert(keys.take(0).filter(pred).len() == 0);
        }
        for i in 0..n
            invariant
                self.wf(),
                keys == self.artifacts.keys(),
                n == keys.len(),
                pred == is_named(name@),
                count == keys.take(i as int).filter(pred).len(),
                count <= i,
        {
            proof {
                assert(keys.take(i + 1) == keys.take(i as int).push(keys[i as int]));
                keys.take(i as int).lemma_filter_push(keys[i as int], pred);
            }
            if same(&self.artifacts.key_at(i).0, name) {
                count = count + 1;
            }
        }
        assert(keys.take(keys.len() as int) == keys);
        proof {
            self.lemma_ids();
            lemma_filtered_set(keys, pred);
            assert(versions(self@, name@) =~= keys.filter(pred).to_set());
        }
        count
    }

    /// The first position of a crate by name, from `start` on.
    fn find_name(&self, name: &str, start: usize) -> (r: Option<usize>)
        requires
            self.wf(),
            start <= self.artifacts.keys().len(),
        ensures
            match r {
                Some(i) => start <= i < self.artifacts.keys().len() && self.artifacts.keys()[i as int].0
                    == name@ && forall|j: int|
                    start <= j < i ==> (#[trigger] self.artifacts.keys()[j]).0 != name@,
                None => forall|j: int|
                    start <= j < self.artifacts.keys().len() ==> (
                    #[trigger] self.artifacts.keys()[j]).0 != name@,
            },
    {
        let n: usize = self.artifacts.len();
        let mut i: usize = start;
        while i < n
            invariant
                start <= i <= n,
                n == self.artifacts.keys().len(),
                forall|j: int|
                    start <= j < i ==> (#[trigger] self.artifacts.keys()[j]).0 != name@,
            decreases n - i,
        {
            if same(&self.artifacts.key_at(i).0, name) {
                return Some(i);
            }
            i = i + 1;
        }
        None
    }

    /// The version of `name` the SDK holds, when it holds exactly one.
    /// `None` for a crate carried at several versions, where "the SDK's
    /// version" is not a well-defined thing to pin to.
    pub fn sole_version(&self, name: &str) -> (r: Option<&str>)
        requires
            self.wf(),
        ensures
            match only_version(self@, name@) {
                Some(version) => r matches Some(v) && v@ == version && versions(self@, name@)
                    == set![(name@, version)],
                None => r is None,
            },
    {
        proof {
            self.lemma_ids();
        }
        let ghost keys = self.artifacts.keys();
        let n: usize = self.artifacts.len();
        assert(keys.len() == n);
        match self.find_name(name, 0) {
            None => {
                assert(versions(self@, name@) =~= Set::<Id>::empty());
                None
            },
            Some(i) => match self.find_name(name, i + 1) {
                None => {
                    proof {
                        assert(versions(self@, name@) =~= set![keys[i as int]]) by {
                            assert forall|id: Id| versions(self@, name@).contains(id) implies id
                                == keys[i as int] by {
                                let j = choose|j: int| 0 <= j < keys.len() && keys[j] == id;
                                assert(self.artifacts.keys()[j] == id);
                            }
                            assert(self@.dom().contains(keys[i as int]));
                        }
                        assert(versions(self@, name@).len() == 1);
                        assert(versions(self@, name@).contains(versions(self@, name@).choose()));
                    }
                    Some(self.artifacts.key_at(i).1.as_str())
                },
                Some(j) => {
                    proof {
                        let two = set![keys[i as int], keys[j as int]];
                        assert(self@.dom().contains(keys[i as int]));
                        assert(self@.dom().contains(keys[j as int]));
                        assert(two.subset_of(versions(self@, name@)));
                        assert(versions(self@, name@).finite());
                        vstd::set_lib::lemma_len_subset(two, versions(self@, name@));
                        assert(keys[i as int] != keys[j as int]);
                        assert(two.len() == 2);
                    }
                    None
                },
            },
        }
    }

    /// The artifact for a crate by name, ignoring version: of several, the
    /// one whose version comes first in the order of the manifest.
    pub fn artifact_for(&self, name: &str) -> (r: Option<&str>)
        requires
            self.wf(),
        ensures
            match first_version(self@, name@) {
                Some(id) => r matches Some(path) && path@ == self@[id].path,
                None => r is None,
            },
    {
        proof {
            self.lemma_ids();
        }
        let ghost keys = self.artifacts.keys();
        let ghost pred = is_named(name@);
        match self.find_name(name, 0) {
            None => {
                proof {
                    if keys.filter(pred).len() > 0 {
                        keys.lemma_filter_pred(pred, 0);
                        keys.lemma_filter_contains_rev(pred, keys.filter(pred)[0]);
                    }
                }
                None
            },
            Some(i) => {
                proof {
                    lemma_first_kept(keys, pred, i as int);
                }
                Some(self.artifacts.value_at(i).path.as_str())
            },
        }
    }

    /// Where the artifacts are said to be, one path for each entry.
    pub fn artifact_paths(&self) -> (r: Vec<String>)
        requires
            self.wf(),
        ensures
            texts(r@) == paths(self@),
    {
        proof {
            self.lemma_ids();
        }
        let n: usize = self.artifacts.len();
        let mut out: Vec<String> = Vec::new();
        for i in 0..n
            invariant
                self.wf(),
                n == self.artifacts.keys().len(),
                n == paths(self@).len(),
                texts(out@) == paths(self@).take(i as int),
        {
            let ghost before = out@;
            proof {
                self.lemma_ids();
                assert(self@.dom().contains(self.artifacts.keys()[i as int]));
                assert(paths(self@).take(i + 1) == paths(self@).take(i as int).push(
                    paths(self@)[i as int],
                ));
            }
            out.push(self.artifacts.value_at(i).path.clone());
            assert(texts(out@) == texts(before).push(paths(self@)[i as int]));
        }
        assert(paths(self@).take(n as int) == paths(self@));
        out
    }

    /// Which artifacts are given by an absolute path, one answer for each
    /// entry. What is absolute depends on the host; one rule holds for all
    /// entries.
    pub fn absolute_artifacts(&self) -> (r: Vec<bool>)
        requires
            self.wf(),
        ensures
            absolute_answers(self@, r@),
    {
        let unix = path_is_absolute("/");
        let found = self.artifact_paths();
        let mut out: Vec<bool> = Vec::new();
        for i in 0..found.len()
            invariant
                texts(found@) == paths(self@),
                out@.len() == i,
                forall|j: int|
                    0 <= j < i ==> absolute_on(unix, paths(self@)[j], #[trigger] out@[j]),
        {
            assert(found@[i as int]@ == paths(self@)[i as int]);
            out.push(absolute_path(unix, &found[i]));
        }
        assert(texts(found@).len() == ids(self@).len());
        assert(follow_rule(self@, unix, out@));
        out
    }

    /// Entries whose artifact is no longer on disk, as `name version`,
    /// capped at `limit`: `existing` are the artifact paths that are there.
    ///
    /// A manifest is a cache of one build's filenames. Cargo replaces those
    /// on every rebuild, so entries rot without anything noticing until rustc
    /// is handed a path that does not resolve. Only meaningful for absolute
    /// paths: a shipped manifest stores basenames that are rebased onto the
    /// install at use time.
    pub fn missing_artifacts(&self, existing: &Vec<String>, limit: usize) -> (r: Vec<String>)
        requires
            self.wf(),
        ensures
            exists|absolute: Seq<bool>|
                #![trigger absolute_answers(self@, absolute)]
                absolute_answers(self@, absolute) && texts(r@) == capped(
                    missing(self@, absolute, texts(existing@), ids(self@).len() as int),
                    limit as int,
                ),
    {
        let absolute = self.absolute_artifacts();
        proof {
            self.lemma_ids();
        }
        self.missing_among(&absolute, existing, limit)
    }

    /// [`missing_artifacts`](Self::missing_artifacts), given which paths are
    /// absolute.
    pub fn missing_among(
        &self,
        absolute: &Vec<bool>,
        existing: &Vec<String>,
        limit: usize,
    ) -> (r: Vec<String>)
        requires
            self.wf(),
            absolute@.len() == self@.dom().len(),
        ensures
            texts(r@) == capped(
                missing(self@, absolute@, texts(existing@), ids(self@).len() as int),
                limit as int,
            ),
    {
        proof {
            self.lemma_ids();
        }
        let n: usize = self.artifacts.len();
        let mut out: Vec<String> = Vec::new();
        assert(texts(out@) =~= capped(
            missing(self@, absolute@, texts(existing@), 0),
            limit as int,
        ));
        for i in 0..n
            invariant
                self.wf(),
                ids(self@) == self.artifacts.keys(),
                n == self.artifacts.keys().len(),
                absolute@.len() == n,
                texts(out@) == capped(
                    missing(self@, absolute@, texts(existing@), i as int),
                    limit as int,
                ),
        {
            let (name, version) = self.artifacts.key_at(i);
            let path = &self.artifacts.value_at(i).path;
            let there = holds(existing, path);
            let ghost before = out@;
            let ghost so_far = missing(self@, absolute@, texts(existing@), i as int);
            proof {
                self.lemma_ids();
                assert(self@.dom().contains(self.artifacts.keys()[i as int]));
            }
            if absolute[i] && !there && out.len() < limit {
                out.push(name.clone().concat(" ").concat(version));
                proof {
                    let label = name@ + " "@ + version@;
                    assert(texts(out@) =~= texts(before).push(label));
                    assert(so_far.len() < limit);
                    assert(texts(out@) =~= capped(so_far.push(label), limit as int));
                }
            } else {
                proof {
                    let next = missing(self@, absolute@, texts(existing@), i + 1);
                    if absolute@[i as int] && !there {
                        assert(so_far.len() >= limit);
                        assert(capped(next, limit as int) =~= capped(so_far, limit as int));
                    }
                }
            }
        }
        out
    }
}

/// Whether a list of strings holds a text.
pub fn holds(list: &Vec<String>, t: &str) -> (r: bool)
    ensures
        r == texts(list@).contains(t@),
{
    for i in 0..list.len()
        invariant
            forall|j: int| 0 <= j < i ==> texts(list@)[j] != t@,
    {
        if same(&list[i], t) {
            assert(texts(list@)[i as int] == t@);
            return true;
        }
    }
    false
}

/// Where the artifacts of a manifest are said to be.
pub open spec fn paths(m: Map<Id, Artifact>) -> Seq<Seq<char>> {
    ids(m).map_values(|id: Id| m[id].path)
}

/// Whether answers to which artifact paths are absolute follow the rule of
/// one host.
pub open spec fn follow_rule(m: Map<Id, Artifact>, unix: bool, absolute: Seq<bool>) -> bool {
    &&& absolute.len() == ids(m).len()
    &&& forall|i: int|
        0 <= i < absolute.len() ==> absolute_on(unix, paths(m)[i], #[trigger] absolute[i])
}

/// Answers to which artifact paths are absolute: by one rule for all.
pub open spec fn absolute_answers(m: Map<Id, Artifact>, absolute: Seq<bool>) -> bool {
    exists|unix: bool| #[trigger] follow_rule(m, unix, absolute)
}

/// Whether a path names a share of Windows.
fn names_share(cs: &Vec<char>) -> (r: bool)
    ensures
        r == on_share(cs@),
{
    if cs.len() < 2 {
        return false;
    }
    let at = find_from(cs, 2, '\\');
    let n: usize = at - 2;
    proof {
        assert(server_len(cs@) == n);
    }
    if cs.len() - at <= 1 || cs[0] != '\\' || cs[1] != '\\' || n == 0 || cs[2] == '?' || cs[2] == '.'
        || cs[at + 1] == '/' || cs[at + 1] == '\\' {
        return false;
    }
    for i in 2..at
        invariant
            at < cs@.len(),
            at == server_len(cs@) + 2,
            forall|j: int| 2 <= j < i ==> cs@[j] != '/',
    {
        if cs[i] == '/' {
            return false;
        }
    }
    true
}

/// Whether a path is absolute by the rule of Unix or that of Windows. The
/// host is asked where the rule leaves it open.
pub fn absolute_path(unix: bool, path: &str) -> (r: bool)
    ensures
        absolute_on(unix, path@, r),
{
    let cs = chars_of(path);
    if unix {
        return cs.len() > 0 && cs[0] == '/';
    }
    if names_share(&cs) {
        return true;
    }
    let slash = cs.len() >= 2 && (cs[0] == '/' || cs[0] == '\\');
    let share = slash && (cs[1] == '/' || cs[1] == '\\');
    let colon = cs.len() >= 2 && cs[1] == ':' && !slash;
    let letter = cs.len() >= 1 && ('a' <= cs[0] && cs[0] <= 'z' || 'A' <= cs[0] && cs[0] <= 'Z');
    if share || colon && !letter {
        path_is_absolute(path)
    } else {
        colon && cs.len() > 2 && (cs[2] == '/' || cs[2] == '\\')
    }
}

/// Of the first `n` entries, those given by an absolute path that is not
/// among the existing ones.
pub open spec fn missing(
    m: Map<Id, Artifact>,
    absolute: Seq<bool>,
    existing: Seq<Seq<char>>,
    n: int,
) -> Seq<Seq<char>>
    decreases n,
{
    if n <= 0 {
        seq![]
    } else {
        let id = ids(m)[n - 1];
        let before = missing(m, absolute, existing, n - 1);
        if absolute[n - 1] && !existing.contains(m[id].path) {
            before.push(id.0 + " "@ + id.1)
        } else {
            before
        }
    }
}

/// The first `n` elements, or all there are.
pub open spec fn capped<A>(s: Seq<A>, n: int) -> Seq<A> {
    if s.len() <= n {
        s
    } else {
        s.take(n)
    }
}

/// Whether the build of a crate has every feature of `wanted`.
pub open spec fn covers(m: Map<Id, Artifact>, id: Id, wanted: Set<Seq<char>>) -> bool {
    m.dom().contains(id) && wanted.subset_of(m[id].features)
}

/// The features of `wanted` that the build of a crate lacks, as a list.
pub open spec fn shortfall(m: Map<Id, Artifact>, id: Id, wanted: Set<Seq<char>>) -> Seq<char> {
    if m.dom().contains(id) {
        join(ascending::<String>(wanted.difference(m[id].features)), ","@)
    } else {
        seq![]
    }
}

/// Whether an entry is for a crate of that name.
pub open spec fn is_named(name: Seq<char>) -> spec_fn(Id) -> bool {
    |id: Id| id.0 == name
}

/// The entries for a crate by name.
pub open spec fn versions(m: Map<Id, Artifact>, name: Seq<char>) -> Set<Id> {
    m.dom().filter(is_named(name))
}

/// The version of a crate that is held at exactly one.
pub open spec fn only_version(m: Map<Id, Artifact>, name: Seq<char>) -> Option<Seq<char>> {
    if versions(m, name).len() == 1 {
        Some(versions(m, name).choose().1)
    } else {
        None
    }
}

/// The first entry for a crate by name.
pub open spec fn first_version(m: Map<Id, Artifact>, name: Seq<char>) -> Option<Id> {
    let found = ids(m).filter(is_named(name));
    if found.len() > 0 {
        Some(found[0])
    } else {
        None
    }
}

/// Filtering a sequence without repetition filters the set it lists.
proof fn lemma_filtered_set(s: Seq<Id>, pred: spec_fn(Id) -> bool)
    requires
        s.no_duplicates(),
    ensures
        s.filter(pred).to_set() == s.to_set().filter(pred),
        s.filter(pred).to_set().len() == s.filter(pred).len(),
{
    let kept = s.filter(pred);
    assert forall|id: Id| kept.to_set().contains(id) == s.to_set().filter(pred).contains(id) by {
        if kept.contains(id) {
            let i = choose|i: int| 0 <= i < kept.len() && kept[i] == id;
            s.lemma_filter_pred(pred, i);
            s.lemma_filter_contains_rev(pred, id);
        }
        if s.contains(id) && pred(id) {
            let i = choose|i: int| 0 <= i < s.len() && s[i] == id;
            s.lemma_filter_contains(pred, i);
        }
    }
    assert(kept.to_set() =~= s.to_set().filter(pred));
    lemma_filter_distinct(s, pred);
    kept.unique_seq_to_set();
}

proof fn lemma_filter_distinct(s: Seq<Id>, pred: spec_fn(Id) -> bool)
    requires
        s.no_duplicates(),
    ensures
        s.filter(pred).no_duplicates(),
    decreases s.len(),
{
    reveal(Seq::filter);
    if s.len() > 0 {
        let init = s.drop_last();
        lemma_filter_distinct(init, pred);
        let kept = init.filter(pred);
        assert forall|i: int| 0 <= i < kept.len() implies #[trigger] kept[i] != s.last() by {
            init.lemma_filter_contains_rev(pred, kept[i]);
            let j = choose|j: int| 0 <= j < init.len() && init[j] == kept[i];
            assert(s[j] == kept[i]);
        }
    }
}

/// The first element that passes is the first one kept.
proof fn lemma_first_kept(s: Seq<Id>, pred: spec_fn(Id) -> bool, i: int)
    requires
        0 <= i < s.len(),
        pred(s[i]),
        forall|j: int| 0 <= j < i ==> !pred(#[trigger] s[j]),
    ensures
        s.filter(pred).len() > 0,
        s.filter(pred)[0] == s[i],
    decreases s.len(),
{
    reveal(Seq::filter);
    let init = s.drop_last();
    if i < s.len() - 1 {
        lemma_first_kept(init, pred, i);
    } else {
        if init.filter(pred).len() > 0 {
            let x = init.filter(pred)[0];
            init.lemma_filter_pred(pred, 0);
            init.lemma_filter_contains_rev(pred, x);
            let j = choose|j: int| 0 <= j < init.len() && init[j] == x;
            assert(s[j] == x);
        }
    }
}

/// An error in the first lines is the error of all.
proof fn lemma_first_error(all: Seq<Seq<char>>, i: int)
    requires
        0 <= i < all.len(),
        entries_of(all.take(i)) is Ok,
        line_entry(all[i]) is None,
    ensures
        entries_of(all) == Err::<Map<Id, Artifact>, Seq<char>>(all[i]),
    decreases all.len(),
{
    if i == all.len() - 1 {
        assert(all.drop_last() == all.take(i));
    } else {
        assert(all.drop_last().take(i) == all.take(i));
        lemma_first_error(all.drop_last(), i);
    }
}

} // verus!
