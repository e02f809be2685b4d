//! Rewriting one rustc invocation.
//!
//! Target-side invocations are rewritten so that the whole dependency graph
//! shares the SDK's crates. Host-side ones, which have no `--target`, are
//! left alone: build scripts and proc-macro crates run against their own
//! units and must never see SDK artifacts.

use vstd::prelude::*;
use vstd::string::StringExecFns;
use crate::extern_map::{load_extern_map, plan_entries, ExternMap, PlanEntry};
use crate::os_text::{among, word_of, word_ref, words, OsText, Word};
use crate::redirect::{companion_fact, companion_probe, flags, metadata_companion, optional_words, probe_fact, redirect_args, redirect_values, redirected_args, redirected_values, EXTERN_FLAG, INJECTED_CRATE};
use crate::text::{contains_char, line_list, lines, replace, replaced, texts, trim, trimmed};

verus! {

pub const ENV_SDK_DYLIB: &'static str = "JACKDAW_SDK_DYLIB";

pub const ENV_SDK_DYLIB_RMETA: &'static str = "JACKDAW_SDK_DYLIB_RMETA";

pub const ENV_SDK_DEPS: &'static str = "JACKDAW_SDK_DEPS";

pub const ENV_SDK_DEP_DIRS: &'static str = "JACKDAW_SDK_DEP_DIRS";

pub const ENV_SDK_LINK_PATHS: &'static str = "JACKDAW_SDK_LINK_PATHS";

pub const ENV_SDK_HOST_DEPS: &'static str = "JACKDAW_SDK_HOST_DEPS";

pub const ENV_PRIMARY_PACKAGE: &'static str = "CARGO_PRIMARY_PACKAGE";

pub const ENV_PACKAGE_NAME: &'static str = "CARGO_PKG_NAME";

pub const ENV_PACKAGE_VERSION: &'static str = "CARGO_PKG_VERSION";

pub const ENV_LOG: &'static str = "JACKDAW_WRAPPER_LOG";

pub const ENV_EXTERN_MAP: &'static str = "JACKDAW_SDK_EXTERN_MAP";

/// When set to `1`, bevy and jackdaw_api are redirected to their prebuilt
/// rlibs and `-C prefer-dynamic` is not added, so that the project embeds one
/// shared bevy compilation rather than linking the SDK library.
pub const ENV_STATIC: &'static str = "JACKDAW_SDK_STATIC";

pub const ENV_SDK_BEVY_RLIB: &'static str = "JACKDAW_SDK_BEVY_RLIB";

pub const ENV_SDK_API_RLIB: &'static str = "JACKDAW_SDK_API_RLIB";

/// The environment of an invocation. A field is `None` where its variable is
/// not set.
pub struct Vars {
    /// `JACKDAW_SDK_DYLIB`.
    pub dylib: Option<OsText>,
    /// `JACKDAW_SDK_DYLIB_RMETA`.
    pub dylib_rmeta: Option<OsText>,
    /// `JACKDAW_SDK_DEPS`.
    pub deps: Option<OsText>,
    /// The paths that `JACKDAW_SDK_DEP_DIRS` lists; empty where it is not set.
    pub dep_dirs: Vec<OsText>,
    /// `JACKDAW_SDK_LINK_PATHS`.
    pub link_paths: Option<OsText>,
    /// `JACKDAW_SDK_HOST_DEPS`.
    pub host_deps: Option<OsText>,
    /// `JACKDAW_SDK_STATIC`.
    pub static_mode: Option<OsText>,
    /// `JACKDAW_SDK_BEVY_RLIB`.
    pub bevy_rlib: Option<OsText>,
    /// `JACKDAW_SDK_API_RLIB`.
    pub api_rlib: Option<OsText>,
    /// `CARGO_PKG_NAME`.
    pub package_name: Option<OsText>,
    /// `CARGO_PKG_VERSION`.
    pub package_version: Option<OsText>,
    /// The contents of the file that `JACKDAW_SDK_EXTERN_MAP` names; `None`
    /// where it is not set or cannot be read.
    pub plan: Option<String>,
}

/// The environment as mathematical values.
pub struct Environment {
    pub dylib: Option<Word>,
    pub dylib_rmeta: Option<Word>,
    pub deps: Option<Word>,
    pub dep_dirs: Seq<Word>,
    pub link_paths: Option<Word>,
    pub host_deps: Option<Word>,
    pub static_mode: Option<Word>,
    pub bevy_rlib: Option<Word>,
    pub api_rlib: Option<Word>,
    pub package_name: Option<Word>,
    pub package_version: Option<Word>,
    pub plan: Option<Seq<char>>,
}

impl View for Vars {
    type V = Environment;

    open spec fn view(&self) -> Environment {
        Environment {
            dylib: word_of(self.dylib),
            dylib_rmeta: word_of(self.dylib_rmeta),
            deps: word_of(self.deps),
            dep_dirs: words(self.dep_dirs@),
            link_paths: word_of(self.link_paths),
            host_deps: word_of(self.host_deps),
            static_mode: word_of(self.static_mode),
            bevy_rlib: word_of(self.bevy_rlib),
            api_rlib: word_of(self.api_rlib),
            package_name: word_of(self.package_name),
            package_version: word_of(self.package_version),
            plan: crate::host::text_view(self.plan),
        }
    }
}

/// Whether a variable that switches something on does so.
pub open spec fn switched_on(value: Option<Word>) -> bool {
    value == Some(Word::Text("1"@))
}

/// Whether a variable that switches something on does so: it is `1`.
pub fn is_on(value: &Option<OsText>) -> (r: bool)
    ensures
        r == switched_on(word_of(*value)),
{
    match value {
        Some(v) => v.is("1"),
        None => false,
    }
}

/// Where an invocation finds the SDK.
pub struct Targets {
    pub deps: OsText,
    pub bevy_target: OsText,
    pub api_target: OsText,
    pub static_mode: bool,
}

/// Where an invocation finds the SDK, as mathematical values.
pub struct Sdk {
    pub deps: Word,
    pub bevy_target: Word,
    pub api_target: Word,
    pub static_mode: bool,
}

impl View for Targets {
    type V = Sdk;

    open spec fn view(&self) -> Sdk {
        Sdk {
            deps: self.deps@,
            bevy_target: self.bevy_target@,
            api_target: self.api_target@,
            static_mode: self.static_mode,
        }
    }
}

/// Where the environment says the SDK is, or what it lacks. In the shared
/// model the facade and the injected crate are both the SDK library; in the
/// static model each is its own rlib.
pub open spec fn sdk_of(vars: Environment) -> Result<Sdk, Seq<char>> {
    match vars.deps {
        None => Err(ENV_SDK_DEPS@ + " not set; cannot point -L at deps/"@),
        Some(deps) => if switched_on(vars.static_mode) {
            match (vars.bevy_rlib, vars.api_rlib) {
                (None, _) => Err(ENV_SDK_BEVY_RLIB@ + " not set in static mode"@),
                (_, None) => Err(ENV_SDK_API_RLIB@ + " not set in static mode"@),
                (Some(bevy), Some(api)) => Ok(
                    Sdk { deps, bevy_target: bevy, api_target: api, static_mode: true },
                ),
            }
        } else {
            match vars.dylib {
                None => Err(ENV_SDK_DYLIB@ + " not set; cannot redirect --extern"@),
                Some(dylib) => Ok(
                    Sdk { deps, bevy_target: dylib, api_target: dylib, static_mode: false },
                ),
            }
        },
    }
}

/// Reads from the environment where the SDK is.
pub fn sdk_targets(vars: &Vars) -> (r: Result<Targets, String>)
    ensures
        match sdk_of(vars@) {
            Ok(sdk) => r matches Ok(t) && t@ == sdk,
            Err(message) => r matches Err(e) && e@ == message,
        },
{
    let deps = match &vars.deps {
        Some(deps) => deps.copy(),
        None => return Err(
            ENV_SDK_DEPS.to_owned().concat(" not set; cannot point -L at deps/"),
        ),
    };
    if is_on(&vars.static_mode) {
        let bevy_target = match &vars.bevy_rlib {
            Some(rlib) => rlib.copy(),
            None => return Err(ENV_SDK_BEVY_RLIB.to_owned().concat(" not set in static mode")),
        };
        let api_target = match &vars.api_rlib {
            Some(rlib) => rlib.copy(),
            None => return Err(ENV_SDK_API_RLIB.to_owned().concat(" not set in static mode")),
        };
        Ok(Targets { deps, bevy_target, api_target, static_mode: true })
    } else {
        match &vars.dylib {
            Some(dylib) => Ok(
                Targets {
                    deps,
                    bevy_target: dylib.copy(),
                    api_target: dylib.copy(),
                    static_mode: false,
                },
            ),
            None => Err(ENV_SDK_DYLIB.to_owned().concat(" not set; cannot redirect --extern")),
        }
    }
}

/// How the plan names the crate that is compiled. The key is name and
/// version: a graph can hold two versions of one crate, and the plan records
/// a distinct redirect for each.
pub open spec fn consumer_of(name: Option<Word>, version: Option<Word>) -> Seq<char> {
    match (name, version) {
        (Some(Word::Text(name)), Some(Word::Text(version))) => replace(name, '-', '_') + "@"@
            + version,
        _ => seq![],
    }
}

/// How the plan names the crate that is compiled; empty where cargo did not
/// say.
pub fn consumer_key(vars: &Vars) -> (r: String)
    ensures
        r@ == consumer_of(vars@.package_name, vars@.package_version),
{
    match (&vars.package_name, &vars.package_version) {
        (Some(OsText::Text(name)), Some(OsText::Text(version))) => replaced(name, '-', '_').concat(
            "@",
        ).concat(version),
        _ => {
            let empty = String::new();
            assert(empty@ =~= seq![]);
            empty
        },
    }
}

/// The edges of the plan that the environment holds.
pub open spec fn plan_of(vars: Environment) -> Seq<PlanEntry> {
    match vars.plan {
        Some(contents) => plan_entries(contents),
        None => seq![],
    }
}

/// Reads the plan that the environment holds.
fn read_plan(vars: &Vars) -> (r: ExternMap)
    ensures
        r@ == plan_of(vars@),
{
    match &vars.plan {
        Some(contents) => load_extern_map(Some(contents.as_str())),
        None => load_extern_map(None),
    }
}

/// Whether the invocation compiles for the target: the driving cargo passes
/// an explicit `--target`, which makes it leave the flag out for host units.
pub open spec fn target_side(args: Seq<Word>) -> bool {
    args.contains(Word::Text("--target"@))
}

/// The flag that adds a directory to search for dependencies in.
pub open spec fn dependency_dir(dir: Word) -> Seq<Word> {
    seq![Word::Text("-L"@), dir.after("dependency="@)]
}

/// The flags for several directories.
pub open spec fn dependency_dirs(dirs: Seq<Word>) -> Seq<Word>
    decreases dirs.len(),
{
    if dirs.len() == 0 {
        seq![]
    } else {
        dependency_dirs(dirs.drop_last()) + dependency_dir(dirs.last())
    }
}

/// How rustc takes a native search path: as it stands where it names its
/// kind, as `native=` otherwise, which is what a build script's search path
/// defaults to.
pub open spec fn link_value(entry: Seq<char>) -> Seq<char> {
    if entry.contains('=') {
        entry
    } else {
        "native="@ + entry
    }
}

/// The lines that hold something.
pub open spec fn filled_lines(text: Seq<char>) -> Seq<Seq<char>> {
    lines(text).filter(|l: Seq<char>| trim(l).len() > 0)
}

/// The flags for native search paths.
pub open spec fn link_flags(entries: Seq<Seq<char>>) -> Seq<Word>
    decreases entries.len(),
{
    if entries.len() == 0 {
        seq![]
    } else {
        link_flags(entries.drop_last()) + seq![
            Word::Text("-L"@),
            Word::Text(link_value(entries.last())),
        ]
    }
}

/// The native search paths that the environment lists, one to a line.
pub open spec fn link_entries(vars: Environment) -> Seq<Seq<char>> {
    match vars.link_paths {
        Some(Word::Text(text)) => filled_lines(text),
        _ => seq![],
    }
}

/// The search paths that every target-side unit gets. A unit that was not
/// itself redirected can still use a crate that was, and loading that crate's
/// metadata needs the SDK artifacts it refers to.
pub open spec fn search_flags(deps: Word, vars: Environment) -> Seq<Word> {
    dependency_dir(deps) + (match vars.host_deps {
        Some(dir) => dependency_dir(dir),
        None => seq![],
    }) + dependency_dirs(vars.dep_dirs) + link_flags(link_entries(vars))
}

/// The flags that pass the injected crate, and its companion.
pub open spec fn injected_flags(api_target: Word, companion: Option<Word>) -> Seq<Word> {
    seq![Word::Text(EXTERN_FLAG@), injected_value(api_target)] + (match companion {
        Some(value) => seq![Word::Text(EXTERN_FLAG@), value],
        None => seq![],
    })
}

/// The value that passes the injected crate.
pub open spec fn injected_value(api_target: Word) -> Word {
    api_target.after(INJECTED_CRATE@ + "="@)
}

/// The values of an invocation that redirect.
pub open spec fn values_of(args: Seq<Word>, sdk: Sdk, vars: Environment) -> Seq<Word> {
    redirect_values(
        flags(args),
        sdk.bevy_target,
        plan_of(vars),
        consumer_of(vars.package_name, vars.package_version),
    )
}

/// Whether the invocation links through the SDK library: in the shared model,
/// where it uses it.
pub open spec fn links_dynamically(
    args: Seq<Word>,
    is_primary: bool,
    sdk: Sdk,
    vars: Environment,
) -> bool {
    !sdk.static_mode && (values_of(args, sdk, vars).len() > 0 || is_primary)
}

/// A target-side invocation after rewriting, given the companion of each
/// redirected value and of the injected crate.
pub open spec fn rewritten(
    args: Seq<Word>,
    is_primary: bool,
    sdk: Sdk,
    vars: Environment,
    companions: Seq<Option<Word>>,
    api_companion: Option<Word>,
) -> Seq<Word> {
    redirected_args(
        args,
        sdk.bevy_target,
        plan_of(vars),
        consumer_of(vars.package_name, vars.package_version),
        companions,
    ) + (if is_primary {
        injected_flags(sdk.api_target, api_companion)
    } else {
        seq![]
    }) + search_flags(sdk.deps, vars) + (if links_dynamically(args, is_primary, sdk, vars) {
        seq![Word::Text("-C"@), Word::Text("prefer-dynamic"@)]
    } else {
        seq![]
    })
}

/// Appends the flag that adds a directory to search for dependencies in.
fn push_dependency_dir(out: &mut Vec<OsText>, dir: &OsText)
    ensures
        words(final(out)@) == words(old(out)@) + dependency_dir(dir@),
{
    let ghost before = out@;
    out.push(OsText::new("-L"));
    out.push(dir.after("dependency="));
    assert(words(out@) =~= words(before) + dependency_dir(dir@));
}

/// Appends the flags for several directories.
fn push_dependency_dirs(out: &mut Vec<OsText>, dirs: &Vec<OsText>)
    ensures
        words(final(out)@) == words(old(out)@) + dependency_dirs(words(dirs@)),
{
    let ghost all = words(dirs@);
    let ghost before = words(out@);
    assert(before + dependency_dirs(all.take(0)) =~= before);
    for i in 0..dirs.len()
        invariant
            all == words(dirs@),
            words(out@) == before + dependency_dirs(all.take(i as int)),
    {
        proof {
            assert(all.take(i + 1).drop_last() == all.take(i as int));
            assert(all[i as int] == dirs@[i as int]@);
        }
        push_dependency_dir(out, &dirs[i]);
        assert(words(out@) =~= before + dependency_dirs(all.take(i + 1)));
    }
    assert(all.take(all.len() as int) == all);
}

/// The native search paths that a text lists.
fn list_filled_lines(text: &str) -> (r: Vec<String>)
    ensures
        texts(r@) == filled_lines(text@),
{
    let found = line_list(text);
    let ghost all = lines(text@);
    let ghost filled = |l: Seq<char>| trim(l).len() > 0;
    let mut out: Vec<String> = Vec::new();
    proof {
        reveal(Seq::filter);
        assert(texts(out@) =~= all.take(0).filter(filled));
    }
    for i in 0..found.len()
        invariant
            all == lines(text@),
            texts(found@) == all,
            filled == (|l: Seq<char>| trim(l).len() > 0),
            texts(out@) == all.take(i as int).filter(filled),
    {
        let ghost before = out@;
        proof {
            assert(found@[i as int]@ == all[i as int]);
            assert(all.take(i + 1) == all.take(i as int).push(all[i as int]));
            all.take(i as int).lemma_filter_push(all[i as int], filled);
        }
        if !trimmed(&found[i]).as_str().is_empty() {
            let line = found[i].clone();
            out.push(line);
            assert(texts(out@) =~= texts(before).push(line@));
        }
    }
    assert(all.take(all.len() as int) == all);
    out
}

/// Appends the flags for the native search paths that a text lists.
fn push_link_flags(out: &mut Vec<OsText>, text: &str)
    ensures
        words(final(out)@) == words(old(out)@) + link_flags(filled_lines(text@)),
{
    let entries = list_filled_lines(text);
    let ghost all = texts(entries@);
    let ghost before = words(out@);
    assert(before + link_flags(all.take(0)) =~= before);
    for i in 0..entries.len()
        invariant
            all == texts(entries@),
            words(out@) == before + link_flags(all.take(i as int)),
    {
        let ghost known = out@;
        proof {
            assert(all.take(i + 1).drop_last() == all.take(i as int));
            assert(all[i as int] == entries@[i as int]@);
        }
        let value = if contains_char(&entries[i], '=') {
            entries[i].clone()
        } else {
            "native=".to_owned().concat(&entries[i])
        };
        out.push(OsText::new("-L"));
        out.push(OsText::Text(value));
        assert(words(out@) =~= words(known) + seq![
            Word::Text("-L"@),
            Word::Text(link_value(all[i as int])),
        ]);
        assert(words(out@) =~= before + link_flags(all.take(i + 1)));
    }
    assert(all.take(all.len() as int) == all);
}

/// Appends the search paths that every target-side unit gets.
fn push_search_flags(out: &mut Vec<OsText>, deps: &OsText, vars: &Vars)
    ensures
        words(final(out)@) == words(old(out)@) + search_flags(deps@, vars@),
{
    let ghost before = words(out@);
    push_dependency_dir(out, deps);
    match &vars.host_deps {
        Some(dir) => push_dependency_dir(out, dir),
        None => {},
    }
    push_dependency_dirs(out, &vars.dep_dirs);
    match &vars.link_paths {
        Some(OsText::Text(text)) => push_link_flags(out, text),
        _ => {},
    }
    assert(words(out@) =~= before + search_flags(deps@, vars@));
}

/// Appends the flags that pass the injected crate.
fn push_injected(out: &mut Vec<OsText>, api_target: &OsText, companion: &Option<OsText>)
    ensures
        words(final(out)@) == words(old(out)@) + injected_flags(api_target@, word_of(*companion)),
{
    let ghost before = words(out@);
    out.push(OsText::new(EXTERN_FLAG));
    out.push(api_target.after(&INJECTED_CRATE.to_owned().concat("=")));
    match companion {
        Some(value) => {
            out.push(OsText::new(EXTERN_FLAG));
            out.push(value.copy());
        },
        None => {},
    }
    assert(words(out@) =~= before + injected_flags(api_target@, word_of(*companion)));
}

/// Rewrites a target-side invocation, given the companion of each redirected
/// value and of the injected crate.
pub fn assemble_args(
    args: &Vec<OsText>,
    is_primary: bool,
    targets: &Targets,
    vars: &Vars,
    companions: &Vec<Option<OsText>>,
    api_companion: &Option<OsText>,
) -> (r: Vec<OsText>)
    ensures
        words(r@) == rewritten(
            words(args@),
            is_primary,
            targets@,
            vars@,
            optional_words(companions@),
            word_of(*api_companion),
        ),
{
    let plan = read_plan(vars);
    let consumer = consumer_key(vars);
    let values = redirected_values(args, &targets.bevy_target, &plan, &consumer);
    let mut out = redirect_args(args, &targets.bevy_target, &plan, &consumer, companions);
    let ghost first = words(out@);
    if is_primary {
        push_injected(&mut out, &targets.api_target, api_companion);
    }
    push_search_flags(&mut out, &targets.deps, vars);
    let ghost known = words(out@);
    if !targets.static_mode && (values.len() > 0 || is_primary) {
        out.push(OsText::new("-C"));
        out.push(OsText::new("prefer-dynamic"));
        assert(words(out@) =~= known + seq![Word::Text("-C"@), Word::Text("prefer-dynamic"@)]);
    }
    assert(words(values@).len() == values@.len());
    assert(words(out@) =~= rewritten(
        words(args@),
        is_primary,
        targets@,
        vars@,
        optional_words(companions@),
        word_of(*api_companion),
    ));
    out
}

/// The metadata that is given for the SDK library. It serves redirects to the
/// library only: in the static model they go to rlibs, whose metadata sits
/// beside them.
pub open spec fn given_rmeta(sdk: Sdk, vars: Environment) -> Option<Word> {
    if sdk.static_mode {
        None
    } else {
        vars.dylib_rmeta
    }
}

/// The metadata that is given for the SDK library, if it is among the files.
pub open spec fn known_rmeta(given: Option<Word>, files: Seq<Word>) -> Option<Word> {
    match given {
        Some(rmeta) => if files.contains(rmeta) {
            Some(rmeta)
        } else {
            None
        },
        None => None,
    }
}

/// What the companions of values can be.
pub open spec fn companions_fact(
    values: Seq<Word>,
    target: Word,
    rmeta: Option<Word>,
    files: Seq<Word>,
    companions: Seq<Option<Word>>,
) -> bool {
    &&& companions.len() == values.len()
    &&& forall|i: int|
        0 <= i < values.len() ==> companion_fact(
            values[i],
            target,
            rmeta,
            files,
            #[trigger] companions[i],
        )
}

/// What the companions of the redirected values and of the injected crate can
/// be.
pub open spec fn companions_can_be(
    args: Seq<Word>,
    sdk: Sdk,
    vars: Environment,
    files: Seq<Word>,
    companions: Seq<Option<Word>>,
    api_companion: Option<Word>,
) -> bool {
    let rmeta = known_rmeta(given_rmeta(sdk, vars), files);
    &&& companions_fact(values_of(args, sdk, vars), sdk.bevy_target, rmeta, files, companions)
    &&& companion_fact(
        injected_value(sdk.api_target),
        sdk.bevy_target,
        rmeta,
        files,
        api_companion,
    )
}

/// What a target-side invocation can be rewritten to.
pub open spec fn is_rewritten(
    args: Seq<Word>,
    is_primary: bool,
    sdk: Sdk,
    vars: Environment,
    files: Seq<Word>,
    out: Seq<Word>,
) -> bool {
    exists|companions: Seq<Option<Word>>, api_companion: Option<Word>| #[trigger]
        companions_can_be(args, sdk, vars, files, companions, api_companion) && out == rewritten(
            args,
            is_primary,
            sdk,
            vars,
            companions,
            api_companion,
        )
}

/// The companions of values.
fn list_companions(
    values: &Vec<OsText>,
    target: &OsText,
    rmeta: Option<&OsText>,
    files: &Vec<OsText>,
) -> (r: Vec<Option<OsText>>)
    ensures
        companions_fact(
            words(values@),
            target@,
            word_ref(rmeta),
            words(files@),
            optional_words(r@),
        ),
{
    let mut out: Vec<Option<OsText>> = Vec::new();
    for i in 0..values.len()
        invariant
            out@.len() == i,
            forall|j: int|
                0 <= j < i ==> companion_fact(
                    words(values@)[j],
                    target@,
                    word_ref(rmeta),
                    words(files@),
                    #[trigger] optional_words(out@)[j],
                ),
    {
        let ghost before = out@;
        let companion = metadata_companion(&values[i], target, rmeta, files);
        out.push(companion);
        assert(optional_words(out@) =~= optional_words(before).push(word_of(companion)));
    }
    out
}

/// Rewrites one rustc invocation. `files` are those of the paths that
/// [`probes`] lists which are files.
///
/// The facade redirects to the SDK; any other dependency that the plan names
/// for this consumer, to the exact artifact the SDK was built with. The
/// primary package also gets the injected crate. Every target-side unit is
/// rewritten alike, those that the plan itself replaces too: a unit compiled
/// as it stands could use a rewritten sibling and see two instances of one
/// crate, so the SDK has to be preferred everywhere or nowhere.
pub fn rewrite_args(args: &Vec<OsText>, is_primary: bool, vars: &Vars, files: &Vec<OsText>) -> (r:
    Result<Vec<OsText>, String>)
    ensures
        match sdk_of(vars@) {
            Err(message) => r matches Err(e) && e@ == message,
            Ok(sdk) => match r {
                Err(_) => false,
                Ok(out) => if target_side(words(args@)) {
                    is_rewritten(
                        words(args@),
                        is_primary,
                        sdk,
                        vars@,
                        words(files@),
                        words(out@),
                    )
                } else {
                    words(out@) == words(args@)
                },
            },
        },
{
    let targets = match sdk_targets(vars) {
        Ok(targets) => targets,
        Err(e) => return Err(e),
    };
    if !among(&OsText::new("--target"), args) {
        return Ok(copies(args));
    }
    // The SDK library's metadata is not beside it, so it cannot be looked
    // for and has to be passed in.
    let rmeta = match given(&targets, vars) {
        Some(rmeta) => if among(rmeta, files) {
            Some(rmeta)
        } else {
            None
        },
        None => None,
    };
    let values = redirected_values(
        args,
        &targets.bevy_target,
        &read_plan(vars),
        &consumer_key(vars),
    );
    let companions = list_companions(&values, &targets.bevy_target, rmeta, files);
    let flag = targets.api_target.after(&INJECTED_CRATE.to_owned().concat("="));
    let api_companion = metadata_companion(&flag, &targets.bevy_target, rmeta, files);
    assert(companions_can_be(
        words(args@),
        targets@,
        vars@,
        words(files@),
        optional_words(companions@),
        word_of(api_companion),
    ));
    Ok(assemble_args(args, is_primary, &targets, vars, &companions, &api_companion))
}

/// The metadata that is given for the SDK library.
fn given<'a>(targets: &Targets, vars: &'a Vars) -> (r: Option<&'a OsText>)
    ensures
        word_ref(r) == given_rmeta(targets@, vars@),
{
    if targets.static_mode {
        return None;
    }
    match &vars.dylib_rmeta {
        Some(rmeta) => Some(rmeta),
        None => None,
    }
}

/// A copy of arguments.
fn copies(args: &Vec<OsText>) -> (r: Vec<OsText>)
    ensures
        words(r@) == words(args@),
{
    let mut out: Vec<OsText> = Vec::new();
    for i in 0..args.len()
        invariant
            words(out@) == words(args@).take(i as int),
    {
        let ghost before = out@;
        let copy = args[i].copy();
        out.push(copy);
        assert(words(out@) =~= words(before).push(copy@));
        assert(words(out@) =~= words(args@).take(i + 1));
    }
    assert(words(args@).take(args@.len() as int) == words(args@));
    out
}

/// The arguments that are there.
pub open spec fn present(found: Seq<Option<Word>>) -> Seq<Word> {
    found.filter_map(|w: Option<Word>| w)
}

/// What the paths to look for the metadata of values at can be.
pub open spec fn probes_fact(values: Seq<Word>, found: Seq<Option<Word>>) -> bool {
    &&& found.len() == values.len()
    &&& forall|i: int| 0 <= i < values.len() ==> probe_fact(values[i], #[trigger] found[i])
}

/// The paths that [`rewrite_args`] needs to know of whether they are files:
/// the one given for the SDK library's metadata, and those beside the
/// artifacts of the redirected values and of the injected crate. None where
/// the invocation is not rewritten.
pub fn probes(args: &Vec<OsText>, vars: &Vars) -> (r: Vec<OsText>)
    ensures
        match sdk_of(vars@) {
            Ok(sdk) if target_side(words(args@)) => exists|found: Seq<Option<Word>>|
                #[trigger] probes_fact(
                    values_of(words(args@), sdk, vars@).push(injected_value(sdk.api_target)),
                    found,
                ) && words(r@) == present(seq![given_rmeta(sdk, vars@)] + found),
            _ => r@.len() == 0,
        },
{
    let mut out: Vec<OsText> = Vec::new();
    let targets = match sdk_targets(vars) {
        Ok(targets) => targets,
        Err(_) => return out,
    };
    if !among(&OsText::new("--target"), args) {
        return out;
    }
    let mut values = redirected_values(
        args,
        &targets.bevy_target,
        &read_plan(vars),
        &consumer_key(vars),
    );
    let ghost known = values@;
    values.push(targets.api_target.after(&INJECTED_CRATE.to_owned().concat("=")));
    let ghost all = words(known).push(injected_value(targets@.api_target));
    assert(words(values@) =~= all);
    let ghost pick = |w: Option<Word>| w;
    let ghost first = given_rmeta(targets@, vars@);
    let ghost mut found: Seq<Option<Word>> = seq![];
    proof {
        reveal(Seq::filter_map);
        let whole = seq![first];
        assert(whole.drop_last() =~= Seq::<Option<Word>>::empty());
        assert(whole.drop_last().filter_map(pick) =~= Seq::<Word>::empty());
    }
    match given(&targets, vars) {
        Some(rmeta) => {
            out.push(rmeta.copy());
            assert(words(out@) =~= seq![rmeta@]);
        },
        None => {
            assert(words(out@) =~= seq![]);
        },
    }
    assert(seq![first] + found =~= seq![first]);
    assert(words(out@) =~= present(seq![first] + found));
    for i in 0..values.len()
        invariant
            words(values@) == all,
            pick == (|w: Option<Word>| w),
            found.len() == i,
            forall|j: int| 0 <= j < i ==> probe_fact(all[j], #[trigger] found[j]),
            words(out@) == present(seq![first] + found),
    {
        let ghost before = out@;
        let ghost earlier = found;
        let probe = companion_probe(&values[i]);
        proof {
            assert(values@[i as int]@ == all[i as int]);
            found = found.push(word_of(probe));
            reveal(Seq::filter_map);
            let whole = seq![first] + found;
            assert(whole.drop_last() =~= seq![first] + earlier);
            assert(whole.last() == word_of(probe));
        }
        match probe {
            Some(path) => {
                out.push(path);
                assert(words(out@) =~= words(before).push(path@));
                assert(words(out@) =~= present(seq![first] + found));
            },
            None => {
                assert(words(out@) =~= present(seq![first] + found));
            },
        }
    }
    assert(probes_fact(
        values_of(words(args@), targets@, vars@).push(injected_value(targets@.api_target)),
        found,
    ));
    out
}

/// Takes a command line apart: the wrapper's own path, the path of the real
/// rustc, and rustc's arguments.
pub fn split_command(argv: &Vec<OsText>) -> (r: Result<(OsText, Vec<OsText>), String>)
    ensures
        if argv@.len() < 2 {
            r matches Err(e) && e@ == "no rustc path provided"@
        } else {
            r matches Ok((rustc, args)) && rustc@ == words(argv@)[1] && words(args@) == words(
                argv@,
            ).skip(2)
        },
{
    if argv.len() < 2 {
        return Err("no rustc path provided".to_owned());
    }
    let mut args: Vec<OsText> = Vec::new();
    for i in 2..argv.len()
        invariant
            argv@.len() >= 2,
            words(args@) == words(argv@).subrange(2, i as int),
    {
        let ghost before = args@;
        let copy = argv[i].copy();
        args.push(copy);
        assert(words(args@) =~= words(before).push(copy@));
        assert(words(args@) =~= words(argv@).subrange(2, i + 1));
    }
    assert(words(argv@).subrange(2, argv@.len() as int) =~= words(argv@).skip(2));
    Ok((argv[1].copy(), args))
}

/// The exit code for the status that rustc ended with: its low byte, and `1`
/// where it was ended by a signal.
pub fn exit_code(status: Option<i32>) -> (r: u8)
    ensures
        r as int == match status {
            Some(code) => code as int % 256,
            None => 1,
        },
{
    match status {
        Some(code) => {
            assert((#[verifier::truncate] (code as u8)) as int == code as int % 256) by (bit_vector);
            #[verifier::truncate]
            (code as u8)
        },
        None => 1,
    }
}

} // verus!
