//! The native search paths of the SDK's build scripts, as they are kept in a
//! file beside the manifest: one to a line.

use vstd::prelude::*;

use crate::host::{front_part, joinable, joined_of, lemma_name_start, lemma_slashed_name, lemma_slashed_take, lemma_slashed_trimmed, name_base, name_start, path_with_file_name, readable, relative, slashed, text_view, trimmed_path, with_file_name_fact, with_file_name_on};
use crate::order::{ascending, lemma_ascending, OrderedSet};
use crate::text::{is_line, is_white, lemma_lines_of_terminated, lemma_lines_whole, line_list, lines, same, terminated, texts, trim, trim_end, trim_start, trimmed};

verus! {

/// The name of the file that holds the search paths.
pub const LINK_PATHS_FILE: &'static str = "jackdaw_sdk_link_paths.txt";

/// The view of a text that may be absent.
pub open spec fn str_view(t: Option<&str>) -> Option<Seq<char>> {
    match t {
        Some(s) => Some(s@),
        None => None,
    }
}

/// What to write to a file that should hold `contents`: nothing when it does
/// already.
pub open spec fn update(existing: Option<Seq<char>>, contents: Seq<char>) -> Option<Seq<char>> {
    if existing == Some(contents) {
        None
    } else {
        Some(contents)
    }
}

/// The search paths that a file lists: its lines without the white space
/// around them, empty ones left out.
pub open spec fn listed_paths(text: Seq<char>) -> Seq<Seq<char>> {
    lines(text).map_values(|l: Seq<char>| trim(l)).filter(|l: Seq<char>| l.len() > 0)
}

/// Where the SDK's build-script link paths are recorded, beside the manifest
/// they are generated with.
pub fn link_paths_path(manifest: &str) -> (r: String)
    ensures
        with_file_name_fact(manifest@, LINK_PATHS_FILE@, r@),
{
    path_with_file_name(manifest, LINK_PATHS_FILE)
}

/// Reads the recorded link paths; none when the file is absent, which is
/// what an SDK built before these were captured looks like.
pub fn read_link_paths(contents: Option<&str>) -> (r: Vec<String>)
    ensures
        texts(r@) == match str_view(contents) {
            Some(text) => listed_paths(text),
            None => Seq::<Seq<char>>::empty(),
        },
{
    let mut out: Vec<String> = Vec::new();
    assert(texts(out@) =~= Seq::<Seq<char>>::empty());
    let text = match contents {
        Some(text) => text,
        None => return out,
    };
    let found = line_list(text);
    let ghost all = lines(text@).map_values(|l: Seq<char>| trim(l));
    let ghost filled = |l: Seq<char>| l.len() > 0;
    proof {
        reveal(Seq::filter);
        assert(texts(out@) =~= all.take(0).filter(filled));
    }
    for i in 0..found.len()
        invariant
            all == lines(text@).map_values(|l: Seq<char>| trim(l)),
            texts(found@) == lines(text@),
            filled == (|l: Seq<char>| l.len() > 0),
            texts(out@) == all.take(i as int).filter(filled),
    {
        let line = trimmed(&found[i]);
        let ghost before = out@;
        proof {
            assert(found@[i as int]@ == lines(text@)[i as int]);
            assert(line@ == all[i as int]);
            assert(all.take(i + 1) == all.take(i as int).push(line@));
            all.take(i as int).lemma_filter_push(line@, filled);
        }
        if !line.as_str().is_empty() {
            out.push(line);
            assert(texts(out@) =~= texts(before).push(line@));
        }
    }
    assert(all.take(all.len() as int) == all);
    out
}

/// The contents of the file that holds the search paths.
pub fn link_paths_text(paths: &OrderedSet<String>) -> (r: String)
    requires
        paths.wf(),
    ensures
        r@ == terminated(ascending::<String>(paths@)),
{
    proof {
        paths.lemma_contents();
    }
    let found = paths.list();
    let ghost all = texts(found@);
    let mut out = String::new();
    for i in 0..found.len()
        invariant
            all == texts(found@),
            out@ == terminated(all.take(i as int)),
    {
        proof {
            assert(all.take(i + 1).drop_last() == all.take(i as int));
        }
        out.append(&found[i]);
        out.push('\n');
        assert(out@ =~= terminated(all.take(i as int)) + all[i as int] + seq!['\n']);
    }
    assert(all.take(all.len() as int) == all);
    out
}

/// What to write to the file that holds the search paths, given what it holds
/// now; `None` when it is up to date.
pub fn write_link_paths(existing: Option<&str>, paths: &OrderedSet<String>) -> (r: Option<String>)
    requires
        paths.wf(),
    ensures
        text_view(r) == update(str_view(existing), terminated(ascending::<String>(paths@))),
{
    let contents = link_paths_text(paths);
    match existing {
        Some(text) => if same(text, &contents) {
            None
        } else {
            Some(contents)
        },
        None => Some(contents),
    }
}

/// The search paths lie where the manifest does, on one host: in the same
/// directory, under their own name. For a manifest without a file name they
/// lie in the directory that it is.
pub proof fn the_file_lies_beside_the_manifest(unix: bool, manifest: Seq<char>, r: Seq<char>)
    requires
        readable(unix, manifest),
        joinable(unix, name_base(unix, manifest), LINK_PATHS_FILE@),
        with_file_name_on(unix, manifest, LINK_PATHS_FILE@, r),
    ensures
        r == joined_of(unix, name_base(unix, manifest), LINK_PATHS_FILE@),
{
}

/// Where every host finds the same components in the manifest's path, the
/// search paths lie beside it whatever the host, which chooses the separator
/// before their name only.
pub proof fn the_file_lies_beside_the_manifest_on_every_host(manifest: Seq<char>, r: Seq<char>)
    requires
        slashed(manifest),
        with_file_name_fact(manifest, LINK_PATHS_FILE@, r),
    ensures
        ({
            let dir = name_base(true, manifest);
            if dir.len() == 0 || dir.last() == '/' {
                r == dir + LINK_PATHS_FILE@
            } else {
                r == dir + seq!['/'] + LINK_PATHS_FILE@ || r == dir + seq!['\\']
                    + LINK_PATHS_FILE@
            }
        }),
{
    reveal_strlit("jackdaw_sdk_link_paths.txt");
    let whole = trimmed_path(true, manifest);
    lemma_slashed_name(manifest);
    lemma_slashed_trimmed(manifest);
    lemma_slashed_name(whole);
    lemma_name_start(true, whole);
    lemma_slashed_take(whole, name_start(true, whole));
    lemma_slashed_trimmed(front_part(true, whole));
    let dir = name_base(true, manifest);
    assert(slashed(dir));
    lemma_slashed_name(dir);
    assert forall|i: int| 0 <= i < dir.len() implies dir[i] != '\\' && dir[i] != ':' by {
        assert(dir.contains(dir[i]));
    }
    assert(relative(LINK_PATHS_FILE@));
}

/// A path that a line of the file can hold.
pub open spec fn listable(path: Seq<char>) -> bool {
    path.len() > 0 && trim(path) == path && !path.contains('\n')
}

/// Trimming takes away white space only, and leaves none at either end.
proof fn lemma_trim_start(s: Seq<char>)
    ensures
        trim_start(s).is_suffix_of(s),
        trim_start(s).len() > 0 ==> !is_white(trim_start(s)[0]),
    decreases s.len(),
{
    if s.len() > 0 && is_white(s[0]) {
        lemma_trim_start(s.drop_first());
        let t = trim_start(s);
        assert(t =~= s.subrange(s.len() - t.len(), s.len() as int));
    } else {
        assert(s =~= s.subrange(0, s.len() as int));
    }
}

proof fn lemma_trim_end(s: Seq<char>)
    ensures
        trim_end(s).is_prefix_of(s),
        trim_end(s).len() > 0 ==> !is_white(trim_end(s).last()),
    decreases s.len(),
{
    if s.len() > 0 && is_white(s.last()) {
        lemma_trim_end(s.drop_last());
        let t = trim_end(s);
        assert(t =~= s.subrange(0, t.len() as int));
    } else {
        assert(s =~= s.subrange(0, s.len() as int));
    }
}

proof fn lemma_trim(s: Seq<char>)
    ensures
        trim(trim(s)) == trim(s),
        s.contains('\n') || !trim(s).contains('\n'),
{
    let a = trim_start(s);
    let b = trim_end(a);
    lemma_trim_start(s);
    lemma_trim_end(a);
    if b.len() > 0 {
        assert(b[0] == a[0]);
        assert(trim_start(b) == b);
        assert(trim_end(b) == b);
    }
    if b.contains('\n') {
        let k = choose|k: int| 0 <= k < b.len() && b[k] == '\n';
        assert(a[k] == '\n');
        assert(s[s.len() - a.len() + k] == '\n');
    }
}

/// A listable path is a line, which trimming leaves alone.
proof fn lemma_listable_line(path: Seq<char>)
    requires
        listable(path),
    ensures
        is_line(path),
{
    lemma_trim_start(path);
    lemma_trim_end(trim_start(path));
    let a = trim_start(path);
    assert(trim_end(a).len() <= a.len() <= path.len());
    assert(a =~= path);
    assert(!is_white(path.last()));
}

/// The search paths that were written are the ones read back, in ascending
/// order, exactly when each of them can stand on a line.
pub proof fn link_paths_round_trip(paths: Set<Seq<char>>)
    requires
        paths.finite(),
    ensures
        listed_paths(terminated(ascending::<String>(paths))) == ascending::<String>(paths)
            <==> forall|p: Seq<char>| #[trigger] paths.contains(p) ==> listable(p),
{
    lemma_ascending::<String>(paths);
    let all = ascending::<String>(paths);
    let text = terminated(all);
    let trimmed = lines(text).map_values(|l: Seq<char>| trim(l));
    let filled = |l: Seq<char>| l.len() > 0;
    let read = trimmed.filter(filled);
    if forall|p: Seq<char>| #[trigger] paths.contains(p) ==> listable(p) {
        assert forall|i: int| 0 <= i < all.len() implies is_line(#[trigger] all[i]) && listable(
            all[i],
        ) by {
            assert(all.to_set().contains(all[i]));
            lemma_listable_line(all[i]);
        }
        lemma_lines_of_terminated(all);
        assert(trimmed =~= all) by {
            assert forall|i: int| 0 <= i < all.len() implies trim(#[trigger] all[i]) == all[i] by {
                assert(listable(all[i]));
            }
        }
        lemma_filter_all(all, filled);
    }
    if read == all {
        assert forall|p: Seq<char>| #[trigger] paths.contains(p) implies listable(p) by {
            assert(all.to_set().contains(p));
            let i = choose|i: int| 0 <= i < read.len() && read[i] == p;
            trimmed.lemma_filter_pred(filled, i);
            trimmed.lemma_filter_contains_rev(filled, p);
            let j = choose|j: int| 0 <= j < trimmed.len() && trimmed[j] == p;
            lemma_lines_whole(text);
            assert(!lines(text)[j].contains('\n'));
            lemma_trim(lines(text)[j]);
        }
    }
}

/// A filter that every element passes keeps the sequence.
proof fn lemma_filter_all(s: Seq<Seq<char>>, pred: spec_fn(Seq<char>) -> bool)
    requires
        forall|i: int| 0 <= i < s.len() ==> pred(#[trigger] s[i]),
    ensures
        s.filter(pred) == s,
    decreases s.len(),
{
    reveal(Seq::filter);
    if s.len() > 0 {
        let init = s.drop_last();
        assert forall|i: int| 0 <= i < init.len() implies pred(#[trigger] init[i]) by {
            assert(pred(s[i]));
        }
        lemma_filter_all(init, pred);
        assert(pred(s[s.len() - 1]));
        assert(init.push(s.last()) =~= s);
    } else {
        assert(s.filter(pred) =~= s);
    }
}

/// A file that was just written needs no writing.
pub proof fn written_file_is_up_to_date(existing: Option<Seq<char>>, contents: Seq<char>)
    ensures
        update(Some(contents), contents) is None,
        match update(existing, contents) {
            Some(new) => new == contents,
            None => existing == Some(contents),
        },
{
}

} // verus!
