//! What holds of rewritten invocations as a whole.

use vstd::prelude::*;
use crate::extern_map::{plan_entries, PlanEntry};
use crate::host::{comparable, extendable, extension_of, is_mark, is_root, last_part, lemma_name_start, lemma_slashed_name, lemma_slashed_same, lemma_slashed_trimmed, mark_end, name_start, named, readable, same_parts, shared, slashed, tail, trimmed_path, with_extension_of};
use crate::os_text::Word;
use crate::plan::{plan_lines, Redirect};
use crate::plan_laws::{consumer_name, meant_entries, meant_entry, lemma_kept, plan_reads_back, plannable, target_is_a_listed_edge};
use crate::redirect::{companion_fact, distinct, extern_parts, externs, flag_words, flags, path_reading, redirect_flag, redirect_flags, redirected, redirected_args, spelled, value_companion, value_probe, without_repeats, Flag, Reading, EXTERN_FLAG, REDIRECTED_CRATE};
use crate::text::{last_index, lemma_cut_at, lemma_cut_parts, lemma_last_index, lemma_last_index_is, replace, split_once, terminated};
use crate::wrapper::{companions_can_be, consumer_of, dependency_dir, dependency_dirs, given_rmeta, injected_flags, injected_value, is_rewritten, link_entries, link_flags, known_rmeta, links_dynamically, plan_of, present, rewritten, search_flags, values_of, Environment, Sdk};

verus! {

/// The facade redirects to the SDK whatever it was, for every consumer.
pub proof fn the_facade_always_redirects(
    path: Seq<char>,
    bevy_target: Word,
    edges: Seq<PlanEntry>,
    consumer: Seq<char>,
)
    ensures
        redirected(
            Word::Text(REDIRECTED_CRATE@ + seq!['='] + path),
            bevy_target,
            edges,
            consumer,
        ) == Some(bevy_target.after(REDIRECTED_CRATE@ + "="@)),
{
    reveal_strlit("bevy");
    assert(!REDIRECTED_CRATE@.contains('='));
    lemma_cut_at(REDIRECTED_CRATE@, '=', path);
}

/// Redirecting a value that was redirected leaves it as it is.
pub proof fn redirecting_twice_changes_nothing(
    value: Word,
    bevy_target: Word,
    edges: Seq<PlanEntry>,
    consumer: Seq<char>,
)
    ensures
        match redirected(value, bevy_target, edges, consumer) {
            Some(new) => match redirected(new, bevy_target, edges, consumer) {
                Some(again) => again == new,
                None => new is Raw,
            },
            None => true,
        },
{
    reveal_strlit("=");
    match redirected(value, bevy_target, edges, consumer) {
        Some(new) => {
            let text = value.text()->0;
            lemma_cut_parts(text, '=');
            let (alias, _) = split_once(text, '=')->0;
            match new {
                Word::Text(s) => {
                    let rest = s.skip(alias.len() as int + 1);
                    assert(s =~= alias + seq!['='] + rest);
                    lemma_cut_at(alias, '=', rest);
                },
                Word::Raw { .. } => {},
            }
        },
        None => {},
    }
}

/// The first edge that a plan lists for a dependency of the crate that is
/// compiled is where its flag redirects to: what the plan was written from is
/// what the wrapper acts on.
pub proof fn planned_edges_redirect(
    edges: Seq<Redirect>,
    resolved: Seq<Seq<char>>,
    i: int,
    name: Seq<char>,
    path: Seq<char>,
    bevy_target: Word,
)
    requires
        edges.len() == resolved.len(),
        forall|j: int| 0 <= j < edges.len() ==> plannable(#[trigger] edges[j], resolved[j]),
        0 <= i < edges.len(),
        edges[i].consumer == replace(name, '-', '_'),
        edges[i].alias != REDIRECTED_CRATE@,
    ensures
        exists|j: int|
            {
                &&& 0 <= j < edges.len()
                &&& consumer_name(#[trigger] edges[j]) == consumer_name(edges[i])
                &&& edges[j].alias == edges[i].alias
                &&& redirected(
                    Word::Text(edges[i].alias + seq!['='] + path),
                    bevy_target,
                    plan_entries(terminated(plan_lines(edges, resolved))),
                    consumer_of(Some(Word::Text(name)), Some(Word::Text(edges[i].version))),
                ) == Some(Word::Text(edges[j].alias + "="@ + resolved[j]))
            },
{
    let e = edges[i];
    let entries = plan_entries(terminated(plan_lines(edges, resolved)));
    let meant = meant_entries(edges, resolved);
    plan_reads_back(edges, resolved);
    assert(plannable(edges[i], resolved[i]));
    lemma_cut_at(e.alias, '=', path);
    let consumer = consumer_of(Some(Word::Text(name)), Some(Word::Text(e.version)));
    assert(consumer == consumer_name(e));
    target_is_a_listed_edge(entries, consumer, e.alias);
    assert(entries[i] == meant_entry(edges[i], resolved[i]));
    match crate::extern_map::target_of(entries, consumer, e.alias) {
        Some(artifact) => {
            let j = choose|j: int|
                0 <= j < entries.len() && entries[j] == (PlanEntry {
                    consumer,
                    alias: e.alias,
                    artifact,
                });
            assert(entries[j] == meant_entry(edges[j], resolved[j]));
        },
        None => {},
    }
}

/// A dependency that neither is the facade nor has an edge in the plan for
/// this consumer is left alone.
pub proof fn unplanned_dependencies_are_left_alone(
    alias: Seq<char>,
    path: Seq<char>,
    bevy_target: Word,
    edges: Seq<PlanEntry>,
    consumer: Seq<char>,
)
    requires
        !alias.contains('='),
        alias != REDIRECTED_CRATE@,
        forall|i: int|
            0 <= i < edges.len() ==> !((#[trigger] edges[i]).consumer == consumer && edges[i].alias
                == alias),
    ensures
        redirected(Word::Text(alias + seq!['='] + path), bevy_target, edges, consumer) is None,
{
    lemma_cut_at(alias, '=', path);
    target_is_a_listed_edge(edges, consumer, alias);
}

/// Without a plan only the facade redirects.
pub proof fn without_a_plan_only_the_facade_redirects(
    value: Word,
    bevy_target: Word,
    consumer: Seq<char>,
)
    ensures
        redirected(value, bevy_target, seq![], consumer) is Some <==> exists|path: Seq<char>|
            value == Word::Text(#[trigger] (REDIRECTED_CRATE@ + seq!['='] + path)),
{
    match value.text() {
        Some(text) => {
            lemma_cut_parts(text, '=');
        },
        None => {},
    }
    if exists|path: Seq<char>|
        value == Word::Text(#[trigger] (REDIRECTED_CRATE@ + seq!['='] + path)) {
        let path = choose|path: Seq<char>|
            value == Word::Text(#[trigger] (REDIRECTED_CRATE@ + seq!['='] + path));
        the_facade_always_redirects(path, bevy_target, seq![], consumer);
    }
}

/// Two crates, or two versions of one crate, are looked up in the plan under
/// different names.
pub proof fn distinct_consumers_have_distinct_names(
    name: Seq<char>,
    version: Seq<char>,
    other: Seq<char>,
    other_version: Seq<char>,
)
    requires
        !name.contains('@'),
        !other.contains('@'),
    ensures
        consumer_of(Some(Word::Text(name)), Some(Word::Text(version))) == consumer_of(
            Some(Word::Text(other)),
            Some(Word::Text(other_version)),
        ) <==> replace(name, '-', '_') == replace(other, '-', '_') && version == other_version,
{
    reveal_strlit("@");
    assert("@"@ =~= seq!['@']);
    let a = replace(name, '-', '_');
    let b = replace(other, '-', '_');
    assert(!a.contains('@')) by {
        if a.contains('@') {
            let k = choose|k: int| 0 <= k < a.len() && a[k] == '@';
            assert(name[k] == '@');
        }
    }
    assert(!b.contains('@')) by {
        if b.contains('@') {
            let k = choose|k: int| 0 <= k < b.len() && b[k] == '@';
            assert(other[k] == '@');
        }
    }
    lemma_cut_at(a, '@', version);
    lemma_cut_at(b, '@', other_version);
}

/// Taking arguments apart and writing them out again gives them back.
pub proof fn flags_spell_the_arguments(args: Seq<Word>)
    ensures
        spelled(flags(args)) == args,
    decreases args.len(),
{
    if args.len() == 0 {
        assert(spelled(flags(args)) =~= args);
    } else if args[0] == Word::Text(EXTERN_FLAG@) && args.len() > 1 {
        flags_spell_the_arguments(args.skip(2));
        lemma_spelled_front(Flag::Extern(args[1]), flags(args.skip(2)));
        assert(args =~= seq![args[0], args[1]] + args.skip(2));
    } else {
        flags_spell_the_arguments(args.skip(1));
        lemma_spelled_front(Flag::Other(args[0]), flags(args.skip(1)));
        assert(args =~= seq![args[0]] + args.skip(1));
    }
}

proof fn lemma_spelled_front(f: Flag, fs: Seq<Flag>)
    ensures
        spelled(seq![f] + fs) == flag_words(f) + spelled(fs),
    decreases fs.len(),
{
    let all = seq![f] + fs;
    if fs.len() == 0 {
        assert(all.drop_last() =~= Seq::<Flag>::empty());
        assert(all.last() == f);
        assert(spelled(all.drop_last()) =~= Seq::<Word>::empty());
        assert(spelled(fs) =~= Seq::<Word>::empty());
        assert(spelled(all) =~= flag_words(f) + spelled(fs));
    } else {
        lemma_spelled_front(f, fs.drop_last());
        assert(all.drop_last() =~= seq![f] + fs.drop_last());
        assert(all.last() == fs.last());
        assert(spelled(all) =~= flag_words(f) + spelled(fs));
    }
}

/// Whether a flag is an argument other than a dependency.
pub open spec fn is_other() -> spec_fn(Flag) -> bool {
    |f: Flag| f is Other
}

/// Arguments other than dependencies stay, in their order.
pub proof fn other_arguments_are_kept(
    fs: Seq<Flag>,
    bevy_target: Word,
    edges: Seq<PlanEntry>,
    consumer: Seq<char>,
)
    ensures
        without_repeats(redirect_flags(fs, bevy_target, edges, consumer)).filter(is_other())
            == fs.filter(is_other()),
    decreases fs.len(),
{
    reveal(Seq::filter);
    let new = redirect_flags(fs, bevy_target, edges, consumer);
    if fs.len() > 0 {
        let init = fs.drop_last();
        other_arguments_are_kept(init, bevy_target, edges, consumer);
        assert(new.drop_last() =~= redirect_flags(init, bevy_target, edges, consumer));
        let kept = without_repeats(new.drop_last());
        kept.lemma_filter_push(new.last(), is_other());
        assert(new.last() == redirect_flag(fs.last(), bevy_target, edges, consumer));
    } else {
        assert(new =~= Seq::<Flag>::empty());
        assert(without_repeats(new).filter(is_other()) =~= fs.filter(is_other()));
    }
}

/// No dependency is passed twice, and none that was passed is lost.
pub proof fn each_dependency_is_passed_once(fs: Seq<Flag>)
    ensures
        forall|f: Flag| #[trigger] without_repeats(fs).contains(f) <==> fs.contains(f),
        forall|i: int, j: int|
            0 <= i < j < without_repeats(fs).len() && without_repeats(fs)[i] is Extern ==> (
            #[trigger] without_repeats(fs)[i]) != (#[trigger] without_repeats(fs)[j]),
    decreases fs.len(),
{
    let kept = without_repeats(fs);
    if fs.len() > 0 {
        let init = fs.drop_last();
        let before = without_repeats(init);
        each_dependency_is_passed_once(init);
        assert(fs =~= init.push(fs.last()));
        assert forall|f: Flag| fs.contains(f) <==> init.contains(f) || f == fs.last() by {
            if init.contains(f) {
                let k = choose|k: int| 0 <= k < init.len() && init[k] == f;
                assert(fs[k] == f);
            }
            if f == fs.last() {
                assert(fs[fs.len() - 1] == f);
            }
            if fs.contains(f) && f != fs.last() {
                let k = choose|k: int| 0 <= k < fs.len() && fs[k] == f;
                assert(init[k] == f);
            }
        }
        if !(fs.last() is Extern && init.contains(fs.last())) {
            assert forall|f: Flag| #[trigger] kept.contains(f) <==> fs.contains(f) by {
                if before.contains(f) {
                    let k = choose|k: int| 0 <= k < before.len() && before[k] == f;
                    assert(kept[k] == f);
                }
                if f == fs.last() {
                    assert(kept[kept.len() - 1] == f);
                }
                if kept.contains(f) && f != fs.last() {
                    let k = choose|k: int| 0 <= k < kept.len() && kept[k] == f;
                    assert(before[k] == f);
                }
            }
            assert forall|i: int, j: int| 0 <= i < j < kept.len() && kept[i] is Extern implies (
            #[trigger] kept[i]) != (#[trigger] kept[j]) by {
                assert(kept[i] == before[i]);
                assert(before.contains(before[i]));
                if j < before.len() {
                    assert(kept[j] == before[j]);
                } else {
                    assert(kept[j] == fs.last());
                }
            }
        }
    } else {
        assert forall|f: Flag| #[trigger] kept.contains(f) <==> fs.contains(f) by {
        }
    }
}

/// No companion is passed twice, and none is lost.
pub proof fn each_companion_is_passed_once(companions: Seq<Option<Word>>)
    ensures
        distinct(companions).no_duplicates(),
        forall|w: Word| #[trigger] distinct(companions).contains(w) <==> companions.contains(
            Some(w),
        ),
    decreases companions.len(),
{
    let kept = distinct(companions);
    if companions.len() > 0 {
        let init = companions.drop_last();
        let last = companions.last();
        let before = distinct(init);
        each_companion_is_passed_once(init);
        assert forall|w: Word| #[trigger] kept.contains(w) <==> companions.contains(Some(w)) by {
            if companions.contains(Some(w)) && last != Some(w) {
                let k = choose|k: int| 0 <= k < companions.len() && companions[k] == Some(w);
                assert(init[k] == Some(w));
            }
            if init.contains(Some(w)) {
                let k = choose|k: int| 0 <= k < init.len() && init[k] == Some(w);
                assert(companions[k] == Some(w));
            }
            if last == Some(w) {
                assert(companions[companions.len() - 1] == Some(w));
                if !before.contains(w) {
                    assert(kept[kept.len() - 1] == w);
                }
            }
            if before.contains(w) {
                let k = choose|k: int| 0 <= k < before.len() && before[k] == w;
                assert(kept[k] == w);
            }
            if kept.contains(w) && !before.contains(w) {
                let k = choose|k: int| 0 <= k < kept.len() && kept[k] == w;
                if k < before.len() {
                    assert(before[k] == w);
                }
                assert(last == Some(w));
            }
        }
        assert(kept.no_duplicates()) by {
            assert forall|i: int, j: int| 0 <= i < kept.len() && 0 <= j < kept.len() && i
                != j implies kept[i] != kept[j] by {
                if i < before.len() {
                    assert(kept[i] == before[i]);
                    assert(before.contains(kept[i]));
                }
                if j < before.len() {
                    assert(kept[j] == before[j]);
                    assert(before.contains(kept[j]));
                }
            }
        }
    } else {
        assert forall|w: Word| #[trigger] kept.contains(w) <==> companions.contains(Some(w)) by {
        }
    }
}

/// An invocation without the facade, without planned edges and without
/// repeated flags keeps its arguments: only search paths and the like are
/// added behind them.
pub proof fn an_unrelated_unit_keeps_its_arguments(
    args: Seq<Word>,
    bevy_target: Word,
    edges: Seq<PlanEntry>,
    consumer: Seq<char>,
)
    requires
        forall|i: int|
            0 <= i < flags(args).len() ==> redirect_flag(
                #[trigger] flags(args)[i],
                bevy_target,
                edges,
                consumer,
            ) == flags(args)[i],
        forall|i: int, j: int|
            0 <= i < j < flags(args).len() && flags(args)[i] is Extern ==> (#[trigger] flags(
                args,
            )[i]) != (#[trigger] flags(args)[j]),
    ensures
        redirected_args(args, bevy_target, edges, consumer, seq![]) == args,
{
    let fs = flags(args);
    assert(redirect_flags(fs, bevy_target, edges, consumer) =~= fs);
    lemma_no_repeats(fs);
    assert(fs + externs(distinct(seq![])) =~= fs);
    flags_spell_the_arguments(args);
}

proof fn lemma_no_repeats(fs: Seq<Flag>)
    requires
        forall|i: int, j: int|
            0 <= i < j < fs.len() && fs[i] is Extern ==> (#[trigger] fs[i]) != (#[trigger] fs[j]),
    ensures
        without_repeats(fs) == fs,
    decreases fs.len(),
{
    if fs.len() > 0 {
        let init = fs.drop_last();
        assert forall|i: int, j: int| 0 <= i < j < init.len() && init[i] is Extern implies (
        #[trigger] init[i]) != (#[trigger] init[j]) by {
            assert(init[i] == fs[i] && init[j] == fs[j]);
        }
        lemma_no_repeats(init);
        if fs.last() is Extern && init.contains(fs.last()) {
            let k = choose|k: int| 0 <= k < init.len() && init[k] == fs.last();
            assert(fs[k] == fs[fs.len() - 1]);
        }
        assert(init.push(fs.last()) =~= fs);
    }
}

/// Every target-side unit searches the SDK's directory.
pub proof fn the_sdk_is_always_searched(
    args: Seq<Word>,
    is_primary: bool,
    sdk: Sdk,
    vars: Environment,
    companions: Seq<Option<Word>>,
    api_companion: Option<Word>,
)
    ensures
        exists|before: Seq<Word>, after: Seq<Word>|
            rewritten(args, is_primary, sdk, vars, companions, api_companion) == #[trigger] (before
                + dependency_dir(sdk.deps) + after),
{
    let out = rewritten(args, is_primary, sdk, vars, companions, api_companion);
    let before = redirected_args(
        args,
        sdk.bevy_target,
        plan_of(vars),
        consumer_of(vars.package_name, vars.package_version),
        companions,
    ) + (if is_primary {
        injected_flags(sdk.api_target, api_companion)
    } else {
        seq![]
    });
    let after = out.skip(before.len() as int + 2);
    assert(out =~= before + dependency_dir(sdk.deps) + after);
}

/// The search paths end in a pair that starts with `-L`.
proof fn lemma_search_end(deps: Word, vars: Environment)
    ensures
        search_flags(deps, vars).len() >= 2,
        search_flags(deps, vars)[search_flags(deps, vars).len() - 2] == Word::Text("-L"@),
{
    let links = link_entries(vars);
    if links.len() > 0 {
        let end = link_flags(links);
        assert(end[end.len() - 2] == Word::Text("-L"@));
    } else if vars.dep_dirs.len() > 0 {
        let end = dependency_dirs(vars.dep_dirs);
        assert(end[end.len() - 2] == Word::Text("-L"@));
        assert(dependency_dir(vars.dep_dirs.last()).len() == 2);
    }
}

/// A unit links through the SDK library exactly when it is of the shared
/// model and uses it: it is the primary package or one of its flags
/// redirected. In the static model none does.
pub proof fn dynamic_linking_is_asked_for_where_the_library_is_used(
    args: Seq<Word>,
    is_primary: bool,
    sdk: Sdk,
    vars: Environment,
    companions: Seq<Option<Word>>,
    api_companion: Option<Word>,
)
    ensures
        ({
            let out = rewritten(args, is_primary, sdk, vars, companions, api_companion);
            &&& out.len() >= 2
            &&& out.skip(out.len() - 2) == seq![Word::Text("-C"@), Word::Text("prefer-dynamic"@)]
                <==> links_dynamically(args, is_primary, sdk, vars)
        }),
{
    let out = rewritten(args, is_primary, sdk, vars, companions, api_companion);
    let pair = seq![Word::Text("-C"@), Word::Text("prefer-dynamic"@)];
    lemma_search_end(sdk.deps, vars);
    reveal_strlit("-L");
    reveal_strlit("-C");
    assert("-L"@[1] != "-C"@[1]);
    if links_dynamically(args, is_primary, sdk, vars) {
        assert(out.skip(out.len() - 2) =~= pair);
    } else {
        assert(out[out.len() - 2] == Word::Text("-L"@));
        assert(out.skip(out.len() - 2)[0] == out[out.len() - 2]);
        assert(pair[0] == Word::Text("-C"@));
    }
}

/// Position of the dot that splits a file name into stem and extension.
pub open spec fn dot(path: Seq<char>) -> int {
    last_index(path, '.')
}

/// A path that ends in `stem.extension` on every host.
pub open spec fn has_stem(path: Seq<char>) -> bool {
    &&& readable(false, path)
    &&& !shared(path)
    &&& mark_end(path) < dot(path)
    &&& path[mark_end(path)] == '.' ==> dot(path) > mark_end(path) + 1
}

/// Whether every host finds the same extension in a path, and the same path
/// with another one.
pub open spec fn stem_alike(path: Seq<char>) -> bool {
    &&& extendable(true, path)
    &&& extendable(false, path)
    &&& extension_of(true, path) == extension_of(false, path)
    &&& with_extension_of(true, path, "rmeta"@) == with_extension_of(false, path, "rmeta"@)
}

/// Whether every host gives the same answer to whether a path is that of the
/// SDK library.
pub open spec fn library_alike(path: Seq<char>, library: Word) -> bool {
    match library.text() {
        Some(target) => {
            ||| path == target
            ||| named(path) && named(target) && tail(path) != tail(target)
            ||| comparable(false, path, target) && same_parts(true, path, target) == same_parts(
                false,
                path,
                target,
            )
        },
        None => true,
    }
}

/// Whether every host makes the same of a redirected value.
pub open spec fn value_alike(value: Word, library: Word) -> bool {
    match extern_parts(value) {
        Some((_, path)) => stem_alike(path) && library_alike(path, library),
        None => true,
    }
}

/// Where the hosts agree there is one reading of a path.
proof fn lemma_one_reading(path: Seq<char>, library: Word, a: Reading, b: Reading)
    requires
        stem_alike(path),
        library_alike(path, library),
        path_reading(path, library, a),
        path_reading(path, library, b),
    ensures
        a == b,
{
    reveal_strlit("rmeta");
}

/// Where the hosts agree there is one companion of a value.
proof fn lemma_one_companion(
    value: Word,
    library: Word,
    dylib_rmeta: Option<Word>,
    files: Seq<Word>,
    a: Option<Word>,
    b: Option<Word>,
)
    requires
        value_alike(value, library),
        companion_fact(value, library, dylib_rmeta, files, a),
        companion_fact(value, library, dylib_rmeta, files, b),
    ensures
        a == b,
{
    match extern_parts(value) {
        Some((_, path)) => {
            let x = choose|x: Reading| #[trigger]
                path_reading(path, library, x) && a == value_companion(
                    value,
                    x,
                    dylib_rmeta,
                    files,
                );
            let y = choose|y: Reading| #[trigger]
                path_reading(path, library, y) && b == value_companion(
                    value,
                    y,
                    dylib_rmeta,
                    files,
                );
            lemma_one_reading(path, library, x, y);
        },
        None => {},
    }
}

/// Rewriting an invocation twice gives the same arguments, where every host
/// makes the same of the paths that are redirected to.
pub proof fn rewriting_again_gives_the_same(
    args: Seq<Word>,
    is_primary: bool,
    sdk: Sdk,
    vars: Environment,
    files: Seq<Word>,
    out: Seq<Word>,
    again: Seq<Word>,
)
    requires
        forall|i: int|
            0 <= i < values_of(args, sdk, vars).len() ==> value_alike(
                #[trigger] values_of(args, sdk, vars)[i],
                sdk.bevy_target,
            ),
        value_alike(injected_value(sdk.api_target), sdk.bevy_target),
        is_rewritten(args, is_primary, sdk, vars, files, out),
        is_rewritten(args, is_primary, sdk, vars, files, again),
    ensures
        out == again,
{
    let values = values_of(args, sdk, vars);
    let rmeta = known_rmeta(given_rmeta(sdk, vars), files);
    let (a, x) = choose|a: Seq<Option<Word>>, x: Option<Word>| #[trigger]
        companions_can_be(args, sdk, vars, files, a, x) && out == rewritten(
            args,
            is_primary,
            sdk,
            vars,
            a,
            x,
        );
    let (b, y) = choose|b: Seq<Option<Word>>, y: Option<Word>| #[trigger]
        companions_can_be(args, sdk, vars, files, b, y) && again == rewritten(
            args,
            is_primary,
            sdk,
            vars,
            b,
            y,
        );
    assert forall|i: int| 0 <= i < values.len() implies a[i] == b[i] by {
        assert(value_alike(values[i], sdk.bevy_target));
        lemma_one_companion(values[i], sdk.bevy_target, rmeta, files, a[i], b[i]);
    }
    assert(a =~= b);
    lemma_one_companion(injected_value(sdk.api_target), sdk.bevy_target, rmeta, files, x, y);
}

/// The last `c` of what follows in a text is that of the text.
proof fn lemma_last_behind(s: Seq<char>, n: int, c: char)
    requires
        0 <= n <= last_index(s, c),
    ensures
        last_index(s.skip(n), c) == last_index(s, c) - n,
{
    lemma_last_index(s, c);
    lemma_last_index_is(s.skip(n), c, last_index(s, c) - n);
}

/// The last component does not start behind the last mark.
proof fn lemma_start_at_mark(unix: bool, path: Seq<char>)
    ensures
        0 <= name_start(unix, path) <= mark_end(path) <= path.len(),
    decreases path.len(),
{
    if path.len() > 0 {
        lemma_start_at_mark(unix, path.drop_last());
        lemma_name_start(unix, path);
    }
}

/// Every host splits such a path at the same dot.
proof fn lemma_stem(unix: bool, path: Seq<char>)
    requires
        has_stem(path),
    ensures
        extendable(unix, path),
        extension_of(unix, path) == Some(path.skip(dot(path) + 1)),
        with_extension_of(unix, path, "rmeta"@) == path.take(dot(path)) + seq!['.'] + "rmeta"@,
{
    let n = name_start(unix, path);
    let name = last_part(unix, path);
    let k = dot(path);
    lemma_last_index(path, '.');
    lemma_start_at_mark(unix, path);
    lemma_last_behind(path, n, '.');
    assert(!is_mark(path.last()));
    assert(name.len() >= 2);
    assert(!is_root(unix, path));
    assert(trimmed_path(unix, path) == path);
    assert(name[0] == path[n]);
    if n == mark_end(path) {
        assert(name[0] == path[mark_end(path)]);
    }
    if name == seq!['.', '.'] {
        assert(name.len() == 2);
        lemma_last_index_is(name, '.', 1);
    }
    assert(name.skip(k - n + 1) =~= path.skip(k + 1));
    assert(path.take(k + 1) =~= path.take(k) + seq!['.']);
}

/// Every host makes the same of paths that end in `stem.extension`.
pub proof fn stems_are_read_alike(path: Seq<char>)
    requires
        has_stem(path),
    ensures
        stem_alike(path),
{
    lemma_stem(true, path);
    lemma_stem(false, path);
}

/// Every host makes the same of paths with the same components everywhere,
/// whose end the one host can extend.
pub proof fn slash_paths_are_read_alike(path: Seq<char>, library: Seq<char>)
    requires
        slashed(path),
        slashed(library),
        extendable(true, path),
    ensures
        stem_alike(path),
        library_alike(path, Word::Text(library)),
{
    lemma_slashed_name(path);
    lemma_slashed_trimmed(path);
    lemma_slashed_same(path, library);
}

/// An artifact takes the metadata beside it, where that is a file, and has no
/// companion otherwise.
pub proof fn an_artifact_takes_its_sibling_metadata(
    alias: Seq<char>,
    path: Seq<char>,
    dylib_target: Word,
    files: Seq<Word>,
    r: Option<Word>,
)
    requires
        !alias.contains('='),
        stem_alike(path),
        extension_of(true, path) != Some("rmeta"@),
        companion_fact(Word::Text(alias + seq!['='] + path), dylib_target, None, files, r),
    ensures
        ({
            let sibling = with_extension_of(true, path, "rmeta"@);
            r == if files.contains(Word::Text(sibling)) {
                Some(Word::Text(alias + "="@ + sibling))
            } else {
                None
            }
        }),
{
    reveal_strlit("rmeta");
    lemma_cut_at(alias, '=', path);
}

/// The metadata beside `stem.extension` is `stem.rmeta`.
pub proof fn the_sibling_shares_the_stem(path: Seq<char>)
    requires
        has_stem(path),
    ensures
        stem_alike(path),
        extension_of(true, path) == Some(path.skip(dot(path) + 1)),
        with_extension_of(true, path, "rmeta"@) == path.take(dot(path)) + seq!['.'] + "rmeta"@,
{
    lemma_stem(true, path);
    lemma_stem(false, path);
}

/// Another artifact than the SDK library does not take the metadata that is
/// given for the library: one with another file name, or with other
/// components on every host.
pub proof fn only_the_library_takes_the_given_metadata(
    alias: Seq<char>,
    path: Seq<char>,
    library: Seq<char>,
    dylib_rmeta: Option<Word>,
    files: Seq<Word>,
    r: Option<Word>,
)
    requires
        !alias.contains('='),
        named(path) && named(library) && tail(path) != tail(library) || comparable(
            false,
            path,
            library,
        ) && !same_parts(true, path, library) && !same_parts(false, path, library),
        companion_fact(
            Word::Text(alias + seq!['='] + path),
            Word::Text(library),
            dylib_rmeta,
            files,
            r,
        ),
    ensures
        companion_fact(
            Word::Text(alias + seq!['='] + path),
            Word::Text(library),
            None,
            files,
            r,
        ),
{
    let value = Word::Text(alias + seq!['='] + path);
    lemma_cut_at(alias, '=', path);
    let reading = choose|reading: Reading| #[trigger]
        path_reading(path, Word::Text(library), reading) && r == value_companion(
            value,
            reading,
            dylib_rmeta,
            files,
        );
    assert(path_reading(path, Word::Text(library), reading));
    assert(!reading.is_dylib);
    assert(r == value_companion(value, reading, None, files));
}

/// In the static model no redirect takes the metadata of the SDK library.
pub proof fn the_static_model_has_no_given_metadata(sdk: Sdk, vars: Environment, files: Seq<Word>)
    requires
        sdk.static_mode,
    ensures
        known_rmeta(given_rmeta(sdk, vars), files) is None,
{
}

/// What is metadata itself has no companion.
pub proof fn metadata_has_no_companion(
    alias: Seq<char>,
    path: Seq<char>,
    dylib_target: Word,
    dylib_rmeta: Option<Word>,
    files: Seq<Word>,
    r: Option<Word>,
)
    requires
        !alias.contains('='),
        stem_alike(path),
        extension_of(true, path) == Some("rmeta"@),
        companion_fact(Word::Text(alias + seq!['='] + path), dylib_target, dylib_rmeta, files, r),
    ensures
        r is None,
{
    lemma_cut_at(alias, '=', path);
}

/// The SDK library takes the metadata that is given for it.
pub proof fn the_library_takes_the_given_metadata(
    alias: Seq<char>,
    path: Seq<char>,
    dylib_rmeta: Word,
    files: Seq<Word>,
    r: Option<Word>,
)
    requires
        !alias.contains('='),
        stem_alike(path),
        extension_of(true, path) != Some("rmeta"@),
        companion_fact(
            Word::Text(alias + seq!['='] + path),
            Word::Text(path),
            Some(dylib_rmeta),
            files,
            r,
        ),
    ensures
        r == Some(dylib_rmeta.after(alias + "="@)),
{
    lemma_cut_at(alias, '=', path);
}

/// The files among paths that were looked for.
pub open spec fn files_among(files: Seq<Word>, probed: Seq<Word>) -> Seq<Word> {
    files.filter(|w: Word| probed.contains(w))
}

/// The paths to look for, given what the host makes of the values' paths.
pub open spec fn probed_paths(
    given: Option<Word>,
    values: Seq<Word>,
    readings: Seq<Reading>,
) -> Seq<Word> {
    present(seq![given] + Seq::new(values.len(), |i: int| value_probe(values[i], readings[i])))
}

/// The companions of values, given what the host makes of their paths and
/// which paths are files.
pub open spec fn companions_by(
    given: Option<Word>,
    values: Seq<Word>,
    readings: Seq<Reading>,
    files: Seq<Word>,
) -> Seq<Option<Word>> {
    Seq::new(
        values.len(),
        |i: int| value_companion(values[i], readings[i], known_rmeta(given, files), files),
    )
}

/// Nothing but the paths that are listed to be looked for decides what the
/// companions are: however many other files there are, they are the same.
pub proof fn probes_are_enough(
    given: Option<Word>,
    values: Seq<Word>,
    readings: Seq<Reading>,
    files: Seq<Word>,
)
    requires
        values.len() == readings.len(),
    ensures
        ({
            let cut = files_among(files, probed_paths(given, values, readings));
            &&& known_rmeta(given, cut) == known_rmeta(given, files)
            &&& companions_by(given, values, readings, cut) == companions_by(
                given,
                values,
                readings,
                files,
            )
        }),
{
    let found = seq![given] + Seq::new(
        values.len(),
        |i: int| value_probe(values[i], readings[i]),
    );
    let probed = probed_paths(given, values, readings);
    let pick = |w: Option<Word>| w;
    let listed = |w: Word| probed.contains(w);
    let cut = files_among(files, probed);
    assert forall|w: Word| probed.contains(w) implies (cut.contains(w) <==> files.contains(w)) by {
        if files.contains(w) {
            let k = choose|k: int| 0 <= k < files.len() && files[k] == w;
            files.lemma_filter_contains(listed, k);
        }
        if cut.contains(w) {
            files.lemma_filter_contains_rev(listed, w);
        }
    }
    match given {
        Some(rmeta) => {
            assert(found[0] == Some(rmeta));
            lemma_kept(found, pick, 0);
            assert(probed.contains(rmeta));
        },
        None => {},
    }
    assert(known_rmeta(given, cut) == known_rmeta(given, files));
    assert forall|i: int| 0 <= i < values.len() implies #[trigger] value_companion(
        values[i],
        readings[i],
        known_rmeta(given, cut),
        cut,
    ) == value_companion(values[i], readings[i], known_rmeta(given, files), files) by {
        match value_probe(values[i], readings[i]) {
            Some(w) => {
                assert(found[i + 1] == Some(w));
                lemma_kept(found, pick, i + 1);
                assert(probed.contains(w));
            },
            None => {},
        }
    }
    assert(companions_by(given, values, readings, cut) =~= companions_by(
        given,
        values,
        readings,
        files,
    ));
}

} // verus!
