//! What holds of whole invocations, of the environment they are read from and
//! of the files beside them, told by arguments, variables and lines.

use vstd::prelude::*;
use crate::argfile::{argfile_path, expanded, file_args, plain_count, shown_args};
use crate::argfile_laws::{arguments_expand_one_after_the_other, depth_is_enough, expands_to};
use crate::error::PlanError;
use crate::extern_map::plan_entries;
use crate::flag_laws::{every_companion_is_passed, every_dependency_is_passed};
use crate::host::{absolute_of, extension_of, front_part, is_root, is_slash, joined_of, lemma_name_start, lemma_trimmed, plain, readable, same_parts, text_view, trimmed_path, with_extension_of, with_file_name_fact};
use crate::json_laws::{lemma_picked_concat, lemma_picked_one};
use crate::link_paths::{listed_paths, str_view, update, LINK_PATHS_FILE};
use crate::os_text::{word_of, words, Word};
use crate::redirect::{companion_fact, flags, probe_fact, redirect_values, redirected, redirected_args, Flag};
use crate::text::{is_white, lemma_cut_at, lines, replace, trim, trim_end, trim_start};
use crate::text_laws::{a_blank_text_has_no_word, blank, lines_end_in_line_feeds};
use crate::wrapper::{companions_can_be, consumer_of, dependency_dirs, given_rmeta, injected_flags, injected_value, is_rewritten, known_rmeta, link_entries, link_flags, link_value, links_dynamically, filled_lines, plan_of, present, probes_fact, rewritten, sdk_of, search_flags, switched_on, target_side, values_of, Environment, Sdk, Targets, Vars};
use crate::wrapper_laws::{an_artifact_takes_its_sibling_metadata, stem_alike};

verus! {

/// The environment and the targets are seen field by field.
pub proof fn the_environment_is_seen_as_it_is(vars: Vars, targets: Targets)
    ensures
        vars@.dylib == word_of(vars.dylib),
        vars@.dylib_rmeta == word_of(vars.dylib_rmeta),
        vars@.deps == word_of(vars.deps),
        vars@.dep_dirs == words(vars.dep_dirs@),
        vars@.link_paths == word_of(vars.link_paths),
        vars@.host_deps == word_of(vars.host_deps),
        vars@.static_mode == word_of(vars.static_mode),
        vars@.bevy_rlib == word_of(vars.bevy_rlib),
        vars@.api_rlib == word_of(vars.api_rlib),
        vars@.package_name == word_of(vars.package_name),
        vars@.package_version == word_of(vars.package_version),
        vars.plan matches Some(text) ==> vars@.plan == Some(text@),
        vars.plan is None ==> vars@.plan is None,
        targets@.deps == targets.deps@,
        targets@.bevy_target == targets.bevy_target@,
        targets@.api_target == targets.api_target@,
        targets@.static_mode == targets.static_mode,
{
}

/// A switch is on when its variable is the text `1`, and otherwise off.
pub proof fn a_switch_is_on_at_one(text: Seq<char>, bytes: Seq<u8>, lossy: Seq<char>)
    ensures
        switched_on(Some(Word::Text(text))) <==> text == seq!['1'],
        !switched_on(Some((Word::Raw { bytes, lossy }))),
        !switched_on(None),
{
    reveal_strlit("1");
    assert("1"@ =~= seq!['1']);
}

/// In the shared model the SDK is found where the directory and the library
/// are given; the facade and the injected crate are both the library.
pub proof fn the_shared_model_needs_directory_and_library(vars: Environment)
    requires
        !switched_on(vars.static_mode),
    ensures
        sdk_of(vars) is Ok <==> vars.deps is Some && vars.dylib is Some,
        sdk_of(vars) matches Ok(sdk) ==> {
            &&& vars.deps == Some(sdk.deps)
            &&& vars.dylib == Some(sdk.bevy_target)
            &&& vars.dylib == Some(sdk.api_target)
            &&& !sdk.static_mode
        },
        vars.deps is None ==> sdk_of(vars) == Err::<Sdk, Seq<char>>(
            "JACKDAW_SDK_DEPS"@ + " not set; cannot point -L at deps/"@,
        ),
        vars.deps is Some && vars.dylib is None ==> sdk_of(vars) == Err::<Sdk, Seq<char>>(
            "JACKDAW_SDK_DYLIB"@ + " not set; cannot redirect --extern"@,
        ),
{
}

/// In the static model the SDK is found where the directory and both rlibs
/// are given, each of which stands for its own crate.
pub proof fn the_static_model_needs_directory_and_rlibs(vars: Environment)
    requires
        switched_on(vars.static_mode),
    ensures
        sdk_of(vars) is Ok <==> vars.deps is Some && vars.bevy_rlib is Some && vars.api_rlib is Some,
        sdk_of(vars) matches Ok(sdk) ==> {
            &&& vars.deps == Some(sdk.deps)
            &&& vars.bevy_rlib == Some(sdk.bevy_target)
            &&& vars.api_rlib == Some(sdk.api_target)
            &&& sdk.static_mode
        },
        vars.deps is None ==> sdk_of(vars) == Err::<Sdk, Seq<char>>(
            "JACKDAW_SDK_DEPS"@ + " not set; cannot point -L at deps/"@,
        ),
        vars.deps is Some && vars.bevy_rlib is None ==> sdk_of(vars) == Err::<Sdk, Seq<char>>(
            "JACKDAW_SDK_BEVY_RLIB"@ + " not set in static mode"@,
        ),
        vars.deps is Some && vars.bevy_rlib is Some && vars.api_rlib is None ==> sdk_of(vars)
            == Err::<Sdk, Seq<char>>("JACKDAW_SDK_API_RLIB"@ + " not set in static mode"@),
{
}

/// A consumer is named by its package with underscores for dashes, an `@` and
/// its version, all of it; without either there is no name.
pub proof fn a_consumer_is_named_by_name_and_version(
    name: Seq<char>,
    version: Seq<char>,
    other: Option<Word>,
    bytes: Seq<u8>,
    lossy: Seq<char>,
)
    ensures
        ({
            let key = consumer_of(Some(Word::Text(name)), Some(Word::Text(version)));
            &&& key.len() == name.len() + 1 + version.len()
            &&& forall|i: int|
                0 <= i < name.len() ==> (#[trigger] key[i]) == if name[i] == '-' {
                    '_'
                } else {
                    name[i]
                }
            &&& key[name.len() as int] == '@'
            &&& key.skip(name.len() as int + 1) == version
        }),
        consumer_of(None, other).len() == 0,
        consumer_of(other, None).len() == 0,
        consumer_of(Some((Word::Raw { bytes, lossy })), other).len() == 0,
        consumer_of(other, Some((Word::Raw { bytes, lossy }))).len() == 0,
{
    reveal_strlit("@");
    let key = consumer_of(Some(Word::Text(name)), Some(Word::Text(version)));
    assert(key.skip(name.len() as int + 1) =~= version);
}

/// The plan of an environment is what its contents are read as, and no edges
/// where there is none.
pub proof fn the_plan_is_read_from_its_contents(vars: Environment)
    ensures
        vars.plan matches Some(text) ==> plan_of(vars) == plan_entries(text),
        vars.plan is None ==> plan_of(vars).len() == 0,
{
}

/// An invocation is target-side when one of its arguments is `--target`.
pub proof fn an_invocation_is_target_side_by_its_flag(args: Seq<Word>)
    ensures
        target_side(args) <==> exists|i: int|
            0 <= i < args.len() && (#[trigger] args[i]) == Word::Text("--target"@),
{
    if target_side(args) {
        let i = choose|i: int| 0 <= i < args.len() && args[i] == Word::Text("--target"@);
        assert(args[i] == Word::Text("--target"@));
    }
}

/// The metadata given for the library is what the variable says in the shared
/// model, and none in the static one; it is known when it is a file.
pub proof fn given_metadata_is_for_the_shared_model(
    sdk: Sdk,
    vars: Environment,
    rmeta: Word,
    files: Seq<Word>,
)
    ensures
        sdk.static_mode ==> given_rmeta(sdk, vars) is None,
        !sdk.static_mode ==> given_rmeta(sdk, vars) == vars.dylib_rmeta,
        files.contains(rmeta) ==> known_rmeta(Some(rmeta), files) == Some(rmeta),
        !files.contains(rmeta) ==> known_rmeta(Some(rmeta), files) is None,
        known_rmeta(None, files) is None,
{
}

/// A search path with a kind is passed as it is, one without as native.
pub proof fn a_search_path_without_a_kind_is_native(
    kind: Seq<char>,
    path: Seq<char>,
    bare: Seq<char>,
)
    requires
        !bare.contains('='),
    ensures
        link_value(kind + seq!['='] + path) == kind + seq!['='] + path,
        link_value(bare) == "native="@ + bare,
{
    let entry = kind + seq!['='] + path;
    assert(entry[kind.len() as int] == '=');
}

/// The search paths of a text are its lines, in order, those of white space
/// left out and the others as they are.
pub proof fn search_paths_are_read_line_by_line(line: Seq<char>, rest: Seq<char>)
    requires
        !line.contains('\n'),
        line.len() == 0 || line.last() != '\r',
    ensures
        filled_lines(line + seq!['\n'] + rest) == (if blank(line) {
            Seq::<Seq<char>>::empty()
        } else {
            seq![line]
        }) + filled_lines(rest),
        line.len() > 0 ==> filled_lines(line) == if blank(line) {
            Seq::<Seq<char>>::empty()
        } else {
            seq![line]
        },
        filled_lines(seq![]) == Seq::<Seq<char>>::empty(),
{
    let pred = |l: Seq<char>| trim(l).len() > 0;
    lines_end_in_line_feeds(line, rest);
    lemma_blank(line);
    lemma_filter_concat(seq![line], lines(rest), pred);
    lemma_filter_one(line, pred);
    reveal(Seq::filter);
}

/// The search paths that are kept in a file are its lines, in order, without
/// the white space around them, empty ones left out.
pub proof fn kept_paths_are_read_line_by_line(line: Seq<char>, rest: Seq<char>)
    requires
        !line.contains('\n'),
        line.len() == 0 || line.last() != '\r',
    ensures
        listed_paths(line + seq!['\n'] + rest) == (if blank(line) {
            Seq::<Seq<char>>::empty()
        } else {
            seq![trim(line)]
        }) + listed_paths(rest),
        line.len() > 0 ==> listed_paths(line) == if blank(line) {
            Seq::<Seq<char>>::empty()
        } else {
            seq![trim(line)]
        },
        listed_paths(seq![]) == Seq::<Seq<char>>::empty(),
{
    let cut = |l: Seq<char>| trim(l);
    let pred = |l: Seq<char>| l.len() > 0;
    lines_end_in_line_feeds(line, rest);
    lemma_blank(line);
    assert((seq![line] + lines(rest)).map_values(cut) =~= seq![trim(line)] + lines(
        rest,
    ).map_values(cut));
    assert(seq![line].map_values(cut) =~= seq![trim(line)]);
    lemma_filter_concat(seq![trim(line)], lines(rest).map_values(cut), pred);
    lemma_filter_one(trim(line), pred);
    assert(Seq::<Seq<char>>::empty().map_values(cut) =~= Seq::<Seq<char>>::empty());
    reveal(Seq::filter);
}

/// A text is blank when nothing is left of it once it is trimmed.
proof fn lemma_blank(s: Seq<char>)
    ensures
        blank(s) <==> trim(s).len() == 0,
{
    if blank(s) {
        a_blank_text_has_no_word(s);
    } else {
        let k = choose|k: int| 0 <= k < s.len() && !is_white(#[trigger] s[k]);
        lemma_kept_start(s, k);
        let t = trim_start(s);
        lemma_kept_end(t, k - (s.len() - t.len()));
    }
}

proof fn lemma_kept_start(s: Seq<char>, k: int)
    requires
        0 <= k < s.len(),
        !is_white(s[k]),
    ensures
        ({
            let t = trim_start(s);
            &&& s.len() - t.len() <= k
            &&& t.len() <= s.len()
            &&& t[k - (s.len() - t.len())] == s[k]
        }),
    decreases s.len(),
{
    if is_white(s[0]) {
        assert(s.drop_first()[k - 1] == s[k]);
        lemma_kept_start(s.drop_first(), k - 1);
    }
}

proof fn lemma_kept_end(s: Seq<char>, k: int)
    requires
        0 <= k < s.len(),
        !is_white(s[k]),
    ensures
        trim_end(s).len() > k,
    decreases s.len(),
{
    if is_white(s.last()) {
        assert(s.drop_last()[k] == s[k]);
        lemma_kept_end(s.drop_last(), k);
    }
}

proof fn lemma_filter_concat(
    a: Seq<Seq<char>>,
    b: Seq<Seq<char>>,
    pred: spec_fn(Seq<char>) -> bool,
)
    ensures
        (a + b).filter(pred) == a.filter(pred) + b.filter(pred),
    decreases b.len(),
{
    reveal(Seq::filter);
    if b.len() == 0 {
        assert(a + b =~= a);
        assert(a.filter(pred) + b.filter(pred) =~= a.filter(pred));
    } else {
        lemma_filter_concat(a, b.drop_last(), pred);
        assert((a + b).drop_last() =~= a + b.drop_last());
        assert((a + b).last() == b.last());
        assert((a + b).filter(pred) =~= a.filter(pred) + b.filter(pred));
    }
}

proof fn lemma_filter_one(x: Seq<char>, pred: spec_fn(Seq<char>) -> bool)
    ensures
        seq![x].filter(pred) == if pred(x) {
            seq![x]
        } else {
            Seq::<Seq<char>>::empty()
        },
{
    reveal(Seq::filter);
    assert(seq![x].drop_last() =~= Seq::<Seq<char>>::empty());
    assert(Seq::<Seq<char>>::empty().filter(pred) =~= Seq::<Seq<char>>::empty());
    assert(seq![x].last() == x);
    assert(seq![x].filter(pred) =~= if pred(x) {
        seq![x]
    } else {
        Seq::<Seq<char>>::empty()
    });
}

/// The search paths of an environment are those that its variable lists as
/// text, and none where it is not text or not set.
pub proof fn search_paths_are_those_of_the_variable(
    vars: Environment,
    text: Seq<char>,
)
    ensures
        vars.link_paths == Some(Word::Text(text)) ==> link_entries(vars) == filled_lines(text),
        vars.link_paths is None ==> link_entries(vars).len() == 0,
        vars.link_paths matches Some(Word::Raw { .. }) ==> link_entries(vars).len() == 0,
{
}

/// What the search flags of an environment name, in order: the SDK's
/// directory, the host's if there is one, each of the others, each native
/// path.
pub open spec fn searched(deps: Word, vars: Environment) -> Seq<Word> {
    seq![deps.after("dependency="@)] + (match vars.host_deps {
        Some(dir) => seq![dir.after("dependency="@)],
        None => seq![],
    }) + Seq::new(vars.dep_dirs.len(), |i: int| vars.dep_dirs[i].after("dependency="@)) + Seq::new(
        link_entries(vars).len(),
        |i: int| Word::Text(link_value(link_entries(vars)[i])),
    )
}

/// Arguments that name values one by one, each behind `-L`.
pub open spec fn are_search_flags(out: Seq<Word>, values: Seq<Word>) -> bool {
    &&& out.len() == 2 * values.len()
    &&& forall|i: int| 0 <= i < values.len() ==> #[trigger] stands_as(out, i, values[i])
}

/// Whether a value stands behind `-L` as the pair of a given number.
pub open spec fn stands_as(out: Seq<Word>, i: int, value: Word) -> bool {
    out[2 * i] == Word::Text("-L"@) && out[2 * i + 1] == value
}

proof fn lemma_search_concat(a: Seq<Word>, x: Seq<Word>, b: Seq<Word>, y: Seq<Word>)
    requires
        are_search_flags(a, x),
        are_search_flags(b, y),
    ensures
        are_search_flags(a + b, x + y),
{
    let out = a + b;
    let all = x + y;
    assert forall|i: int| 0 <= i < all.len() implies #[trigger] stands_as(out, i, all[i]) by {
        if i < x.len() {
            assert(all[i] == x[i]);
            assert(stands_as(a, i, x[i]));
            assert(out[2 * i] == a[2 * i] && out[2 * i + 1] == a[2 * i + 1]);
        } else {
            let j = i - x.len();
            assert(all[i] == y[j]);
            assert(stands_as(b, j, y[j]));
            assert(out[2 * i] == b[2 * j] && out[2 * i + 1] == b[2 * j + 1]);
        }
    }
}

proof fn lemma_dir_flags(dirs: Seq<Word>)
    ensures
        are_search_flags(
            dependency_dirs(dirs),
            Seq::new(dirs.len(), |i: int| dirs[i].after("dependency="@)),
        ),
    decreases dirs.len(),
{
    let values = Seq::new(dirs.len(), |i: int| dirs[i].after("dependency="@));
    if dirs.len() > 0 {
        let init = dirs.drop_last();
        lemma_dir_flags(init);
        let last = dirs.last().after("dependency="@);
        let pair = seq![Word::Text("-L"@), last];
        assert(are_search_flags(pair, seq![last])) by {
            assert(pair[0] == Word::Text("-L"@) && pair[1] == last);
        }
        let before = Seq::new(init.len(), |i: int| init[i].after("dependency="@));
        lemma_search_concat(dependency_dirs(init), before, pair, seq![last]);
        assert(values =~= before + seq![last]);
        assert(dependency_dirs(dirs) =~= dependency_dirs(init) + pair);
    }
}

proof fn lemma_link_flags(entries: Seq<Seq<char>>)
    ensures
        are_search_flags(
            link_flags(entries),
            Seq::new(entries.len(), |i: int| Word::Text(link_value(entries[i]))),
        ),
    decreases entries.len(),
{
    let values = Seq::new(entries.len(), |i: int| Word::Text(link_value(entries[i])));
    if entries.len() > 0 {
        let init = entries.drop_last();
        lemma_link_flags(init);
        let last = Word::Text(link_value(entries.last()));
        let pair = seq![Word::Text("-L"@), last];
        assert(are_search_flags(pair, seq![last])) by {
            assert(pair[0] == Word::Text("-L"@) && pair[1] == last);
        }
        let before = Seq::new(init.len(), |i: int| Word::Text(link_value(init[i])));
        lemma_search_concat(link_flags(init), before, pair, seq![last]);
        assert(values =~= before + seq![last]);
        assert(link_flags(entries) =~= link_flags(init) + pair);
    }
}

/// The search flags name each search path behind a `-L` of its own, in order,
/// and nothing else.
pub proof fn every_search_path_has_its_flag(deps: Word, vars: Environment)
    ensures
        are_search_flags(search_flags(deps, vars), searched(deps, vars)),
{
    let first = seq![deps.after("dependency="@)];
    let head = seq![Word::Text("-L"@), first[0]];
    assert(are_search_flags(head, first)) by {
        assert(head[0] == Word::Text("-L"@) && head[1] == first[0]);
    }
    let host: Seq<Word> = match vars.host_deps {
        Some(dir) => seq![dir.after("dependency="@)],
        None => seq![],
    };
    let host_flags: Seq<Word> = match vars.host_deps {
        Some(dir) => seq![Word::Text("-L"@), dir.after("dependency="@)],
        None => seq![],
    };
    assert(are_search_flags(host_flags, host)) by {
        if vars.host_deps is Some {
            assert(host_flags[0] == Word::Text("-L"@) && host_flags[1] == host[0]);
        }
    }
    let dirs = Seq::new(vars.dep_dirs.len(), |i: int| vars.dep_dirs[i].after("dependency="@));
    let entries = link_entries(vars);
    let links = Seq::new(entries.len(), |i: int| Word::Text(link_value(entries[i])));
    lemma_dir_flags(vars.dep_dirs);
    lemma_link_flags(entries);
    lemma_search_concat(head, first, host_flags, host);
    lemma_search_concat(
        head + host_flags,
        first + host,
        dependency_dirs(vars.dep_dirs),
        dirs,
    );
    lemma_search_concat(
        head + host_flags + dependency_dirs(vars.dep_dirs),
        first + host + dirs,
        link_flags(entries),
        links,
    );
    assert(search_flags(deps, vars) =~= head + host_flags + dependency_dirs(vars.dep_dirs)
        + link_flags(entries));
    assert(searched(deps, vars) =~= first + host + dirs + links);
}

/// The injected crate is passed as a dependency on the SDK, and so is its
/// companion if it has one.
pub proof fn the_injected_crate_is_passed(api_target: Word, companion: Word)
    ensures
        injected_value(api_target) == api_target.after("jackdaw_api="@),
        injected_flags(api_target, None) == seq![
            Word::Text("--extern"@),
            api_target.after("jackdaw_api="@),
        ],
        injected_flags(api_target, Some(companion)) == seq![
            Word::Text("--extern"@),
            api_target.after("jackdaw_api="@),
            Word::Text("--extern"@),
            companion,
        ],
{
    reveal_strlit("jackdaw_api");
    reveal_strlit("=");
    reveal_strlit("jackdaw_api=");
    assert("jackdaw_api"@ + "="@ =~= "jackdaw_api="@);
    assert(injected_flags(api_target, None) =~= seq![
        Word::Text("--extern"@),
        api_target.after("jackdaw_api="@),
    ]);
    assert(injected_flags(api_target, Some(companion)) =~= seq![
        Word::Text("--extern"@),
        api_target.after("jackdaw_api="@),
        Word::Text("--extern"@),
        companion,
    ]);
}

/// The values that an invocation redirects are those of its flags, by the
/// plan of the environment for the package that it names.
pub proof fn values_are_redirected_by_the_plan(
    args: Seq<Word>,
    sdk: Sdk,
    vars: Environment,
    contents: Seq<char>,
    name: Seq<char>,
    version: Seq<char>,
)
    requires
        vars.plan == Some(contents),
        vars.package_name == Some(Word::Text(name)),
        vars.package_version == Some(Word::Text(version)),
    ensures
        values_of(args, sdk, vars) == redirect_values(
            flags(args),
            sdk.bevy_target,
            plan_entries(contents),
            replace(name, '-', '_') + seq!['@'] + version,
        ),
{
    reveal_strlit("@");
    assert("@"@ =~= seq!['@']);
}

/// An invocation links through the library in the shared model, if one of
/// its values redirects or it is of the primary package.
pub proof fn the_library_is_linked_where_it_is_used(
    args: Seq<Word>,
    is_primary: bool,
    sdk: Sdk,
    vars: Environment,
)
    ensures
        sdk.static_mode ==> !links_dynamically(args, is_primary, sdk, vars),
        !sdk.static_mode && is_primary ==> links_dynamically(args, is_primary, sdk, vars),
        !sdk.static_mode && !is_primary ==> (links_dynamically(args, is_primary, sdk, vars)
            <==> values_of(args, sdk, vars).len() > 0),
{
}

/// A rewritten invocation starts with its rebuilt flags; behind them stand
/// the injected crate for the primary package, the search flags, and what
/// asks for dynamic linking, and nothing more.
pub proof fn a_rewritten_invocation_is_made_of_its_parts(
    args: Seq<Word>,
    is_primary: bool,
    sdk: Sdk,
    vars: Environment,
    companions: Seq<Option<Word>>,
    api_companion: Option<Word>,
)
    ensures
        ({
            let out = rewritten(args, is_primary, sdk, vars, companions, api_companion);
            let rebuilt = redirected_args(
                args,
                sdk.bevy_target,
                plan_of(vars),
                consumer_of(vars.package_name, vars.package_version),
                companions,
            );
            let injected = if is_primary {
                injected_flags(sdk.api_target, api_companion)
            } else {
                seq![]
            };
            let search = search_flags(sdk.deps, vars);
            let n = rebuilt.len() as int;
            let k = n + injected.len();
            let e = k + search.len();
            &&& out.len() == e + if links_dynamically(args, is_primary, sdk, vars) {
                2int
            } else {
                0int
            }
            &&& out.take(n) == rebuilt
            &&& out.subrange(n, k) == injected
            &&& out.subrange(k, e) == search
            &&& links_dynamically(args, is_primary, sdk, vars) ==> out[e] == Word::Text("-C"@)
                && out[e + 1] == Word::Text("prefer-dynamic"@)
        }),
{
    let out = rewritten(args, is_primary, sdk, vars, companions, api_companion);
    let rebuilt = redirected_args(
        args,
        sdk.bevy_target,
        plan_of(vars),
        consumer_of(vars.package_name, vars.package_version),
        companions,
    );
    let injected = if is_primary {
        injected_flags(sdk.api_target, api_companion)
    } else {
        seq![]
    };
    let search = search_flags(sdk.deps, vars);
    let n = rebuilt.len() as int;
    let k = n + injected.len();
    let e = k + search.len();
    assert(out.take(n) =~= rebuilt);
    assert(out.subrange(n, k) =~= injected);
    assert(out.subrange(k, e) =~= search);
}

/// Whether two arguments stand directly behind each other.
pub open spec fn stand_together(out: Seq<Word>, first: Word, second: Word) -> bool {
    exists|k: int| 0 <= k < out.len() - 1 && (#[trigger] out[k]) == first && out[k + 1] == second
}

proof fn lemma_together_in_front(front: Seq<Word>, out: Seq<Word>, first: Word, second: Word)
    requires
        front.is_prefix_of(out),
        stand_together(front, first, second),
    ensures
        stand_together(out, first, second),
{
    let k = choose|k: int|
        0 <= k < front.len() - 1 && (#[trigger] front[k]) == first && front[k + 1] == second;
    assert(out[k] == front[k] && out[k + 1] == front[k + 1]);
}

/// Every redirected artifact of a target-side invocation whose metadata lies
/// beside it is passed with that metadata too, where no metadata is given for
/// the library.
pub proof fn redirected_artifacts_come_with_their_metadata(
    args: Seq<Word>,
    is_primary: bool,
    sdk: Sdk,
    vars: Environment,
    files: Seq<Word>,
    out: Seq<Word>,
    i: int,
    alias: Seq<char>,
    path: Seq<char>,
)
    requires
        is_rewritten(args, is_primary, sdk, vars, files, out),
        known_rmeta(given_rmeta(sdk, vars), files) is None,
        0 <= i < values_of(args, sdk, vars).len(),
        values_of(args, sdk, vars)[i] == Word::Text(alias + seq!['='] + path),
        !alias.contains('='),
        stem_alike(path),
        extension_of(true, path) != Some("rmeta"@),
        files.contains(Word::Text(with_extension_of(true, path, "rmeta"@))),
    ensures
        stand_together(
            out,
            Word::Text("--extern"@),
            Word::Text(alias + seq!['='] + with_extension_of(true, path, "rmeta"@)),
        ),
{
    reveal_strlit("=");
    assert("="@ =~= seq!['=']);
    let (companions, api) = choose|companions: Seq<Option<Word>>, api: Option<Word>| #[trigger]
        companions_can_be(args, sdk, vars, files, companions, api) && out == rewritten(
            args,
            is_primary,
            sdk,
            vars,
            companions,
            api,
        );
    let values = values_of(args, sdk, vars);
    assert(companion_fact(
        values[i],
        sdk.bevy_target,
        None,
        files,
        companions[i],
    ));
    an_artifact_takes_its_sibling_metadata(alias, path, sdk.bevy_target, files, companions[i]);
    let companion = Word::Text(alias + seq!['='] + with_extension_of(true, path, "rmeta"@));
    let consumer = consumer_of(vars.package_name, vars.package_version);
    let rebuilt = redirected_args(args, sdk.bevy_target, plan_of(vars), consumer, companions);
    every_companion_is_passed(
        args,
        sdk.bevy_target,
        plan_of(vars),
        consumer,
        companions,
        i,
        companion,
    );
    assert(rebuilt =~= out.subrange(0, rebuilt.len() as int));
    lemma_together_in_front(rebuilt, out, Word::Text("--extern"@), companion);
}

/// Every dependency of a target-side invocation is passed with the value that
/// it redirects to, or its own.
pub proof fn redirected_dependencies_are_passed(
    args: Seq<Word>,
    is_primary: bool,
    sdk: Sdk,
    vars: Environment,
    files: Seq<Word>,
    out: Seq<Word>,
    i: int,
    value: Word,
)
    requires
        is_rewritten(args, is_primary, sdk, vars, files, out),
        0 <= i < flags(args).len(),
        flags(args)[i] == Flag::Extern(value),
    ensures
        stand_together(
            out,
            Word::Text("--extern"@),
            match redirected(
                value,
                sdk.bevy_target,
                plan_of(vars),
                consumer_of(vars.package_name, vars.package_version),
            ) {
                Some(new) => new,
                None => value,
            },
        ),
{
    let (companions, api) = choose|companions: Seq<Option<Word>>, api: Option<Word>| #[trigger]
        companions_can_be(args, sdk, vars, files, companions, api) && out == rewritten(
            args,
            is_primary,
            sdk,
            vars,
            companions,
            api,
        );
    let consumer = consumer_of(vars.package_name, vars.package_version);
    let rebuilt = redirected_args(args, sdk.bevy_target, plan_of(vars), consumer, companions);
    every_dependency_is_passed(
        args,
        sdk.bevy_target,
        plan_of(vars),
        consumer,
        companions,
        i,
        value,
    );
    let passed = match redirected(value, sdk.bevy_target, plan_of(vars), consumer) {
        Some(new) => new,
        None => value,
    };
    assert(rebuilt =~= out.subrange(0, rebuilt.len() as int));
    lemma_together_in_front(rebuilt, out, Word::Text("--extern"@), passed);
}

/// Beside every redirected artifact that is not metadata itself its metadata
/// is looked for, and nothing beside one that is.
pub proof fn the_metadata_of_every_artifact_is_looked_for(
    values: Seq<Word>,
    found: Seq<Option<Word>>,
    i: int,
    alias: Seq<char>,
    path: Seq<char>,
)
    requires
        probes_fact(values, found),
        0 <= i < values.len(),
        values[i] == Word::Text(alias + seq!['='] + path),
        !alias.contains('='),
        stem_alike(path),
    ensures
        found.len() == values.len(),
        found[i] == if extension_of(true, path) == Some("rmeta"@) {
            None
        } else {
            Some(Word::Text(with_extension_of(true, path, "rmeta"@)))
        },
{
    reveal_strlit("rmeta");
    lemma_cut_at(alias, '=', path);
    assert(probe_fact(values[i], found[i]));
}

/// The crate that is injected into the primary package comes with the
/// metadata beside it, where no metadata is given for the library.
pub proof fn the_injected_crate_comes_with_its_metadata(
    args: Seq<Word>,
    sdk: Sdk,
    vars: Environment,
    files: Seq<Word>,
    out: Seq<Word>,
    path: Seq<char>,
)
    requires
        is_rewritten(args, true, sdk, vars, files, out),
        known_rmeta(given_rmeta(sdk, vars), files) is None,
        sdk.api_target == Word::Text(path),
        stem_alike(path),
        extension_of(true, path) != Some("rmeta"@),
        files.contains(Word::Text(with_extension_of(true, path, "rmeta"@))),
    ensures
        stand_together(out, Word::Text("--extern"@), Word::Text("jackdaw_api="@ + path)),
        stand_together(
            out,
            Word::Text("--extern"@),
            Word::Text("jackdaw_api="@ + with_extension_of(true, path, "rmeta"@)),
        ),
{
    reveal_strlit("=");
    reveal_strlit("jackdaw_api");
    reveal_strlit("jackdaw_api=");
    let alias = "jackdaw_api"@;
    let sibling = with_extension_of(true, path, "rmeta"@);
    let (companions, api) = choose|companions: Seq<Option<Word>>, api: Option<Word>| #[trigger]
        companions_can_be(args, sdk, vars, files, companions, api) && out == rewritten(
            args,
            true,
            sdk,
            vars,
            companions,
            api,
        );
    assert("jackdaw_api="@ + path =~= alias + seq!['='] + path);
    assert(alias + "="@ + sibling =~= "jackdaw_api="@ + sibling);
    the_injected_crate_is_passed(sdk.api_target, api->Some_0);
    an_artifact_takes_its_sibling_metadata(alias, path, sdk.bevy_target, files, api);
    a_rewritten_invocation_is_made_of_its_parts(args, true, sdk, vars, companions, api);
    let injected = injected_flags(sdk.api_target, api);
    let n = redirected_args(
        args,
        sdk.bevy_target,
        plan_of(vars),
        consumer_of(vars.package_name, vars.package_version),
        companions,
    ).len() as int;
    assert(out.subrange(n, n + injected.len()) == injected);
    assert forall|j: int| 0 <= j < 4 implies out[n + j] == #[trigger] injected[j] by {
        assert(out.subrange(n, n + injected.len())[j] == out[n + j]);
    }
    assert(out[n] == injected[0]);
    assert(out[n + 1] == injected[1]);
    assert(out[n + 2] == injected[2]);
    assert(out[n + 3] == injected[3]);
}

/// What is there is listed, in order, and nothing else.
pub proof fn what_is_there_is_listed(a: Seq<Option<Word>>, b: Seq<Option<Word>>, w: Word)
    ensures
        present(a + b) == present(a) + present(b),
        present(seq![Some(w)]) == seq![w],
        present(seq![None]) == Seq::<Word>::empty(),
{
    let pick = |x: Option<Word>| x;
    lemma_picked_concat(a, b, pick);
    lemma_picked_one(Some(w), pick);
    lemma_picked_one(None::<Word>, pick);
}

/// An argument that starts with `@` stands for the file whose path is all
/// that follows it; no other argument stands for a file.
pub proof fn an_argument_stands_for_the_file_behind_its_mark(
    path: Seq<char>,
    other: Seq<char>,
    bytes: Seq<u8>,
    lossy: Seq<char>,
)
    requires
        other.len() == 0 || other[0] != '@',
    ensures
        argfile_path(Word::Text(seq!['@'] + path)) == Some(path),
        argfile_path(Word::Text(other)) is None,
        argfile_path((Word::Raw { bytes, lossy })) is None,
{
    assert((seq!['@'] + path).drop_first() =~= path);
}

/// A file holds one argument to a line, empty ones too, as text.
pub proof fn a_file_holds_an_argument_to_a_line(line: Seq<char>, rest: Seq<char>)
    requires
        !line.contains('\n'),
        line.len() == 0 || line.last() != '\r',
    ensures
        file_args(line + seq!['\n'] + rest) == seq![Word::Text(line)] + file_args(rest),
        file_args(line + seq!['\r', '\n'] + rest) == seq![Word::Text(line)] + file_args(rest),
        line.len() > 0 ==> file_args(line) == seq![Word::Text(line)],
        file_args(seq![]) == Seq::<Word>::empty(),
{
    lines_end_in_line_feeds(line, rest);
    assert(file_args(line + seq!['\n'] + rest) =~= seq![Word::Text(line)] + file_args(rest));
    assert(file_args(line + seq!['\r', '\n'] + rest) =~= seq![Word::Text(line)] + file_args(rest));
    assert(file_args(seq![]) =~= Seq::<Word>::empty());
    if line.len() > 0 {
        assert(file_args(line) =~= seq![Word::Text(line)]);
    }
}

/// An argument that stands for a file gives way to what the file's arguments
/// expand to, and stays as it is where the file cannot be read. What stands
/// before and behind it is expanded on its own.
pub proof fn a_file_takes_the_place_of_its_argument(
    before: Seq<Word>,
    path: Seq<char>,
    after: Seq<Word>,
    files: Map<Seq<char>, Seq<char>>,
    a: Seq<Word>,
    inner: Seq<Word>,
    b: Seq<Word>,
)
    requires
        expands_to(before, files, a),
        expands_to(after, files, b),
        files.dom().contains(path) ==> expands_to(file_args(files[path]), files, inner),
    ensures
        expands_to(
            before + seq![Word::Text(seq!['@'] + path)] + after,
            files,
            a + (if files.dom().contains(path) {
                inner
            } else {
                seq![Word::Text(seq!['@'] + path)]
            }) + b,
        ),
{
    let arg = Word::Text(seq!['@'] + path);
    an_argument_stands_for_the_file_behind_its_mark(path, seq![], seq![], seq![]);
    let x = choose|depth: nat| #[trigger] expanded(before, files, depth) == Some(a);
    let y = choose|depth: nat| #[trigger] expanded(after, files, depth) == Some(b);
    let z: nat = if files.dom().contains(path) {
        choose|depth: nat| #[trigger] expanded(file_args(files[path]), files, depth) == Some(inner)
    } else {
        0
    };
    let d: nat = x + y + z + 1;
    depth_is_enough(before, files, x, d);
    depth_is_enough(after, files, y, d);
    if files.dom().contains(path) {
        depth_is_enough(file_args(files[path]), files, z, (d - 1) as nat);
    }
    let middle = if files.dom().contains(path) {
        inner
    } else {
        seq![arg]
    };
    assert(seq![arg].drop_first() =~= Seq::<Word>::empty());
    assert(expanded(Seq::<Word>::empty(), files, d) == Some(Seq::<Word>::empty()));
    assert(middle + Seq::<Word>::empty() =~= middle);
    assert(seq![arg][0] == arg);
    assert(expanded(seq![arg], files, d) == Some(middle));
    arguments_expand_one_after_the_other(before, seq![arg], files, d);
    arguments_expand_one_after_the_other(before + seq![arg], after, files, d);
    assert(expanded(before + seq![arg] + after, files, d) == Some(a + middle + b));
}

/// The arguments up to the first that stands for a file are passed over.
pub proof fn arguments_are_passed_over_up_to_a_file(
    plain: Seq<Word>,
    path: Seq<char>,
    after: Seq<Word>,
)
    requires
        forall|i: int| 0 <= i < plain.len() ==> argfile_path(#[trigger] plain[i]) is None,
    ensures
        plain_count(plain + seq![Word::Text(seq!['@'] + path)] + after) == plain.len(),
        plain_count(plain) == plain.len(),
    decreases plain.len(),
{
    let arg = Word::Text(seq!['@'] + path);
    let all = plain + seq![arg] + after;
    an_argument_stands_for_the_file_behind_its_mark(path, seq![], seq![], seq![]);
    if plain.len() > 0 {
        let rest = plain.drop_first();
        assert forall|i: int| 0 <= i < rest.len() implies argfile_path(#[trigger] rest[i]) is None by {
            assert(rest[i] == plain[i + 1]);
        }
        arguments_are_passed_over_up_to_a_file(rest, path, after);
        assert(argfile_path(plain[0]) is None);
        assert(all[0] == plain[0]);
        assert(all.drop_first() =~= rest + seq![arg] + after);
    } else {
        assert(all[0] == arg);
    }
}

/// A response file shows each argument as text, in order.
pub proof fn each_argument_is_shown(args: Seq<Word>)
    ensures
        shown_args(args).len() == args.len(),
        forall|i: int| 0 <= i < args.len() ==> (#[trigger] shown_args(args)[i]) == args[i].lossy(),
{
}

/// A file is written when it does not hold the contents, and then with them.
pub proof fn a_file_is_updated_to_its_contents(existing: Seq<char>, contents: Seq<char>)
    ensures
        update(None, contents) == Some(contents),
        existing != contents ==> update(Some(existing), contents) == Some(contents),
        update(Some(contents), contents) is None,
{
}

/// A text that is there is seen as it is, and one that is not as none.
pub proof fn optional_texts_are_seen_as_they_are(part: &str, whole: String)
    ensures
        str_view(Some(part)) == Some(part@),
        str_view(None) is None,
        text_view(Some(whole)) == Some(whole@),
        text_view(None) is None,
{
}

/// The search paths of a manifest that the host can read are kept in a file
/// of their own name.
pub proof fn search_paths_are_kept_under_their_name(manifest: Seq<char>, r: Seq<char>)
    requires
        readable(false, manifest),
        with_file_name_fact(manifest, LINK_PATHS_FILE@, r),
    ensures
        "jackdaw_sdk_link_paths.txt"@.is_suffix_of(r),
{
    let name = "jackdaw_sdk_link_paths.txt"@;
    reveal_strlit("jackdaw_sdk_link_paths.txt");
    assert(plain(name));
    assert(name != seq!['.'] && name != seq!['.', '.']) by {
        assert(name.len() > 2);
    }
}

/// An error says what failed and why.
pub proof fn an_error_says_what_failed(reason: String)
    ensures
        PlanError::Io(reason).shown() == "io error: "@ + reason@,
        PlanError::Cargo(reason).shown() == "cargo failed: "@ + reason@,
        PlanError::Parse(reason).shown() == "could not parse: "@ + reason@,
{
}

/// A path is absolute on Unix when it starts with a slash, and on Windows
/// when a slash follows its drive.
pub proof fn absolute_paths_start_at_a_root(rest: Seq<char>, drive: char, slash: char)
    requires
        is_slash(slash),
        !is_slash(drive),
    ensures
        absolute_of(true, seq!['/'] + rest),
        absolute_of(false, seq![drive, ':', slash] + rest),
        rest.len() > 0 && rest[0] != '/' ==> !absolute_of(true, rest),
        rest.len() > 0 && !is_slash(rest[0]) ==> !absolute_of(false, seq![drive, ':'] + rest),
{
    let a = seq![drive, ':', slash] + rest;
    assert(a[0] == drive && a[1] == ':' && a[2] == slash);
    let b = seq![drive, ':'] + rest;
    if rest.len() > 0 {
        assert(b[0] == drive && b[2] == rest[0]);
    }
}

/// A name goes behind a directory and the host's separator; a rooted name
/// takes its place.
pub proof fn names_are_joined_behind_a_separator(dir: Seq<char>, name: Seq<char>)
    requires
        dir.len() > 0,
        !is_slash(dir.last()),
        !(dir.len() == 2 && dir[1] == ':'),
        name.len() > 0,
        !is_slash(name[0]),
        !(name.len() > 1 && name[1] == ':'),
    ensures
        joined_of(true, dir, name) == dir + seq!['/'] + name,
        joined_of(false, dir, name) == dir + seq!['\\'] + name,
        joined_of(true, dir + seq!['/'], name) == dir + seq!['/'] + name,
        joined_of(true, dir, seq!['/'] + name) == seq!['/'] + name,
        joined_of(true, seq![], name) == name,
        joined_of(false, seq![], name) == name,
{
    assert((dir + seq!['/']).last() == '/');
    assert(Seq::<char>::empty() + name =~= name);
}

/// A path is the same as itself on either host, and of two paths it does not
/// matter which stands first.
pub proof fn a_path_is_the_same_as_itself(unix: bool, a: Seq<char>, b: Seq<char>)
    ensures
        same_parts(unix, a, a),
        same_parts(unix, a, b) == same_parts(unix, b, a),
    decreases a.len(),
{
    let p = trimmed_path(unix, a);
    let q = trimmed_path(unix, b);
    lemma_trimmed(unix, a);
    lemma_name_start(unix, p);
    if p.len() > 0 && !is_root(unix, p) {
        a_path_is_the_same_as_itself(unix, front_part(unix, p), front_part(unix, q));
    }
}

} // verus!
