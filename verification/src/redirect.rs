//! Redirecting the `--extern` flags of one rustc invocation.
//!
//! The flags are rebuilt rather than edited in place: a dependency can come
//! as a pair of flags, one for the library and one for its metadata, and both
//! redirect to the same artifact. The pass drops the duplicate and puts the
//! artifact's own `.rmeta` companion in its place.

use vstd::prelude::*;
use vstd::string::StringExecFns;
use crate::extern_map::{target_of, ExternMap, PlanEntry};
use crate::host::{extension_fact, path_extension, path_same, path_with_extension, same_path_fact, text_view, with_extension_fact};
use crate::os_text::{among, word_of, word_ref, words, OsText, Word};
use crate::text::{cut_first, same, split_once};

verus! {

/// The crate whose flags redirect to the SDK for every consumer.
pub const REDIRECTED_CRATE: &'static str = "bevy";

/// The crate that is passed to the primary package without being declared.
pub const INJECTED_CRATE: &'static str = "jackdaw_api";

/// The flag that names a dependency.
pub const EXTERN_FLAG: &'static str = "--extern";

/// What the value of an `--extern` flag redirects to. The facade goes to
/// `bevy_target`; an edge that the plan lists for this consumer, to its
/// artifact.
pub open spec fn redirected(
    value: Word,
    bevy_target: Word,
    edges: Seq<PlanEntry>,
    consumer: Seq<char>,
) -> Option<Word> {
    match value.text() {
        None => None,
        Some(text) => match split_once(text, '=') {
            None => None,
            Some((alias, _)) => if alias == REDIRECTED_CRATE@ {
                Some(bevy_target.after(alias + "="@))
            } else {
                match target_of(edges, consumer, alias) {
                    Some(artifact) => Some(Word::Text(alias + "="@ + artifact)),
                    None => None,
                }
            },
        },
    }
}

/// If `value` is `alias=path` with a redirect target, the redirected form;
/// otherwise `None`, and the flag is left alone.
pub fn rewrite_extern(
    value: &OsText,
    bevy_target: &OsText,
    extern_map: &ExternMap,
    consumer: &str,
) -> (r: Option<OsText>)
    ensures
        word_of(r) == redirected(value@, bevy_target@, extern_map@, consumer@),
{
    let text = match value.text() {
        Some(text) => text,
        None => return None,
    };
    let alias = match cut_first(text, '=') {
        Some((alias, _)) => alias,
        None => return None,
    };
    if same(&alias, REDIRECTED_CRATE) {
        return Some(bevy_target.after(&alias.concat("=")));
    }
    match extern_map.edge_artifact(consumer, &alias) {
        Some(artifact) => Some(OsText::Text(alias.concat("=").concat(artifact))),
        None => None,
    }
}

/// The alias and the path of an `--extern` value.
pub open spec fn extern_parts(value: Word) -> Option<(Seq<char>, Seq<char>)> {
    match value.text() {
        Some(text) => split_once(text, '='),
        None => None,
    }
}

/// What the host makes of the path of a redirected value: its extension,
/// whether it is the path of the SDK library, and the path of the metadata
/// file beside it.
pub struct Reading {
    pub extension: Option<Seq<char>>,
    pub is_dylib: bool,
    pub sibling: Seq<char>,
}

/// What the host can make of a path, the SDK library aside.
pub open spec fn sibling_reading(path: Seq<char>, reading: Reading) -> bool {
    &&& extension_fact(path, reading.extension)
    &&& with_extension_fact(path, "rmeta"@, reading.sibling)
}

/// What the host can make of a path.
pub open spec fn path_reading(path: Seq<char>, dylib_target: Word, reading: Reading) -> bool {
    &&& sibling_reading(path, reading)
    &&& match dylib_target.text() {
        Some(target) => same_path_fact(path, target, reading.is_dylib),
        None => !reading.is_dylib,
    }
}

/// The metadata companion of a redirected value `alias=path`, given what the
/// host makes of the path. `files` are the paths that are known to be files.
pub open spec fn companion_of(
    alias: Seq<char>,
    reading: Reading,
    dylib_rmeta: Option<Word>,
    files: Seq<Word>,
) -> Option<Word> {
    if reading.extension == Some("rmeta"@) {
        None
    } else if dylib_rmeta is Some && reading.is_dylib {
        Some(dylib_rmeta->0.after(alias + "="@))
    } else if files.contains(Word::Text(reading.sibling)) {
        Some(Word::Text(alias + "="@ + reading.sibling))
    } else {
        None
    }
}

/// The metadata companion of a redirected value, given what the host makes of
/// its path.
pub open spec fn value_companion(
    value: Word,
    reading: Reading,
    dylib_rmeta: Option<Word>,
    files: Seq<Word>,
) -> Option<Word> {
    match extern_parts(value) {
        Some((alias, _)) => companion_of(alias, reading, dylib_rmeta, files),
        None => None,
    }
}

/// What the companion of a redirected value can be.
pub open spec fn companion_fact(
    value: Word,
    dylib_target: Word,
    dylib_rmeta: Option<Word>,
    files: Seq<Word>,
    r: Option<Word>,
) -> bool {
    match extern_parts(value) {
        Some((_, path)) => exists|reading: Reading| #[trigger]
            path_reading(path, dylib_target, reading) && r == value_companion(
                value,
                reading,
                dylib_rmeta,
                files,
            ),
        None => r is None,
    }
}

/// The path to look for a redirected value's metadata at, given what the host
/// makes of its path: none where the value is metadata itself.
pub open spec fn value_probe(value: Word, reading: Reading) -> Option<Word> {
    if extern_parts(value) is None || reading.extension == Some("rmeta"@) {
        None
    } else {
        Some(Word::Text(reading.sibling))
    }
}

/// What the path to look for a redirected value's metadata at can be.
pub open spec fn probe_fact(value: Word, r: Option<Word>) -> bool {
    match extern_parts(value) {
        Some((_, path)) => exists|reading: Reading| #[trigger]
            sibling_reading(path, reading) && r == value_probe(value, reading),
        None => r is None,
    }
}

/// Whether an optional text is the text `s`.
fn is_text(t: &Option<String>, s: &str) -> (r: bool)
    ensures
        r == (text_view(*t) == Some(s@)),
{
    match t {
        Some(t) => same(t, s),
        None => false,
    }
}

/// The metadata companion of a redirected value, given what the host makes
/// of its path.
pub fn choose_companion(
    alias: &str,
    extension: &Option<String>,
    is_dylib: bool,
    sibling: &str,
    dylib_rmeta: Option<&OsText>,
    files: &Vec<OsText>,
) -> (r: Option<OsText>)
    ensures
        word_of(r) == companion_of(
            alias@,
            (Reading { extension: text_view(*extension), is_dylib, sibling: sibling@ }),
            word_ref(dylib_rmeta),
            words(files@),
        ),
{
    if is_text(extension, "rmeta") {
        return None;
    }
    let prefix = alias.to_owned().concat("=");
    match dylib_rmeta {
        // The library only: the static model redirects to rlibs, whose
        // companions sit beside them like any other unit's.
        Some(rmeta) if is_dylib => Some(rmeta.after(&prefix)),
        _ => {
            if among(&OsText::new(sibling), files) {
                Some(OsText::Text(prefix.concat(sibling)))
            } else {
                None
            }
        },
    }
}

/// Whether a path is that of the SDK library.
fn is_target(path: &str, dylib_target: &OsText) -> (r: bool)
    ensures
        match dylib_target@.text() {
            Some(target) => same_path_fact(path@, target, r),
            None => !r,
        },
{
    match dylib_target.text() {
        Some(target) => path_same(path, target),
        None => false,
    }
}

/// The `alias=path.rmeta` companion of a redirected `--extern` value, or
/// `None` when the artifact carries its own metadata.
///
/// A library can hold a stub whose real metadata sits in a `.rmeta` file
/// beside it. The SDK library is the exception: its metadata is elsewhere,
/// and its path is given as `dylib_rmeta`.
pub fn metadata_companion(
    value: &OsText,
    dylib_target: &OsText,
    dylib_rmeta: Option<&OsText>,
    files: &Vec<OsText>,
) -> (r: Option<OsText>)
    ensures
        companion_fact(value@, dylib_target@, word_ref(dylib_rmeta), words(files@), word_of(r)),
{
    let text = match value.text() {
        Some(text) => text,
        None => return None,
    };
    let (alias, path) = match cut_first(text, '=') {
        Some(parts) => parts,
        None => return None,
    };
    let extension = path_extension(&path);
    let is_dylib = is_target(&path, dylib_target);
    proof {
        reveal_strlit("rmeta");
    }
    let sibling = path_with_extension(&path, "rmeta");
    assert(path_reading(
        path@,
        dylib_target@,
        Reading { extension: text_view(extension), is_dylib, sibling: sibling@ },
    ));
    choose_companion(&alias, &extension, is_dylib, &sibling, dylib_rmeta, files)
}

/// The path beside a redirected value's artifact where its metadata would be,
/// if it is not metadata itself.
pub fn companion_probe(value: &OsText) -> (r: Option<OsText>)
    ensures
        probe_fact(value@, word_of(r)),
{
    let text = match value.text() {
        Some(text) => text,
        None => return None,
    };
    let path = match cut_first(text, '=') {
        Some((_, path)) => path,
        None => return None,
    };
    let extension = path_extension(&path);
    proof {
        reveal_strlit("rmeta");
    }
    let sibling = path_with_extension(&path, "rmeta");
    assert(sibling_reading(
        path@,
        Reading { extension: text_view(extension), is_dylib: false, sibling: sibling@ },
    ));
    if is_text(&extension, "rmeta") {
        None
    } else {
        Some(OsText::Text(sibling))
    }
}

/// The arguments of an invocation, each `--extern` joined with its value.
pub enum Flag {
    Extern(Word),
    Other(Word),
}

/// Takes the arguments of an invocation apart. A trailing `--extern` without
/// a value is an argument like any other.
pub open spec fn flags(args: Seq<Word>) -> Seq<Flag>
    decreases args.len(),
{
    if args.len() == 0 {
        seq![]
    } else if args[0] == Word::Text(EXTERN_FLAG@) && args.len() > 1 {
        seq![Flag::Extern(args[1])] + flags(args.skip(2))
    } else {
        seq![Flag::Other(args[0])] + flags(args.skip(1))
    }
}

/// The arguments that a flag is written as.
pub open spec fn flag_words(f: Flag) -> Seq<Word> {
    match f {
        Flag::Extern(value) => seq![Word::Text(EXTERN_FLAG@), value],
        Flag::Other(word) => seq![word],
    }
}

/// The arguments that flags are written as.
pub open spec fn spelled(fs: Seq<Flag>) -> Seq<Word>
    decreases fs.len(),
{
    if fs.len() == 0 {
        seq![]
    } else {
        spelled(fs.drop_last()) + flag_words(fs.last())
    }
}

/// `--extern` flags for the values of a sequence.
pub open spec fn externs(values: Seq<Word>) -> Seq<Flag> {
    values.map_values(|v: Word| Flag::Extern(v))
}

/// A flag with its value redirected, where it has a redirect target.
pub open spec fn redirect_flag(
    f: Flag,
    bevy_target: Word,
    edges: Seq<PlanEntry>,
    consumer: Seq<char>,
) -> Flag {
    match f {
        Flag::Extern(value) => match redirected(value, bevy_target, edges, consumer) {
            Some(new) => Flag::Extern(new),
            None => f,
        },
        Flag::Other(_) => f,
    }
}

/// The flags with their values redirected.
pub open spec fn redirect_flags(
    fs: Seq<Flag>,
    bevy_target: Word,
    edges: Seq<PlanEntry>,
    consumer: Seq<char>,
) -> Seq<Flag> {
    fs.map_values(|f: Flag| redirect_flag(f, bevy_target, edges, consumer))
}

/// The new value of a flag that redirects.
pub open spec fn flag_target(
    f: Flag,
    bevy_target: Word,
    edges: Seq<PlanEntry>,
    consumer: Seq<char>,
) -> Option<Word> {
    match f {
        Flag::Extern(value) => redirected(value, bevy_target, edges, consumer),
        Flag::Other(_) => None,
    }
}

/// The new values of the flags that redirect, in their order.
pub open spec fn redirect_values(
    fs: Seq<Flag>,
    bevy_target: Word,
    edges: Seq<PlanEntry>,
    consumer: Seq<char>,
) -> Seq<Word> {
    fs.filter_map(|f: Flag| flag_target(f, bevy_target, edges, consumer))
}

/// The flags without any `--extern` that stands before already.
pub open spec fn without_repeats(fs: Seq<Flag>) -> Seq<Flag>
    decreases fs.len(),
{
    if fs.len() == 0 {
        seq![]
    } else if fs.last() is Extern && fs.drop_last().contains(fs.last()) {
        without_repeats(fs.drop_last())
    } else {
        without_repeats(fs.drop_last()).push(fs.last())
    }
}

/// The values that are there, each once, where it first stands.
pub open spec fn distinct(values: Seq<Option<Word>>) -> Seq<Word>
    decreases values.len(),
{
    if values.len() == 0 {
        seq![]
    } else {
        let before = distinct(values.drop_last());
        match values.last() {
            Some(v) => if before.contains(v) {
                before
            } else {
                before.push(v)
            },
            None => before,
        }
    }
}

/// The views of optional arguments.
pub open spec fn optional_words(s: Seq<Option<OsText>>) -> Seq<Option<Word>> {
    s.map_values(|t: Option<OsText>| word_of(t))
}

/// The `--extern` flags of an invocation after the redirects: every value
/// that has a target redirected, repeated flags left out, the companions of
/// the redirected values behind the rest.
pub open spec fn redirected_args(
    args: Seq<Word>,
    bevy_target: Word,
    edges: Seq<PlanEntry>,
    consumer: Seq<char>,
    companions: Seq<Option<Word>>,
) -> Seq<Word> {
    spelled(
        without_repeats(redirect_flags(flags(args), bevy_target, edges, consumer)) + externs(
            distinct(companions),
        ),
    )
}

/// One argument, or an `--extern` with its value.
enum Piece {
    Extern(OsText),
    Other(OsText),
}

impl View for Piece {
    type V = Flag;

    closed spec fn view(&self) -> Flag {
        match self {
            Piece::Extern(value) => Flag::Extern(value@),
            Piece::Other(word) => Flag::Other(word@),
        }
    }
}

/// The views of pieces.
spec fn piece_flags(s: Seq<Piece>) -> Seq<Flag> {
    s.map_values(|p: Piece| p@)
}

/// Takes the arguments of an invocation apart.
fn split_flags(args: &Vec<OsText>) -> (r: Vec<Piece>)
    ensures
        piece_flags(r@) == flags(words(args@)),
{
    let ghost all = words(args@);
    let mut out: Vec<Piece> = Vec::new();
    let mut i: usize = 0;
    assert(all.skip(0) == all);
    assert(piece_flags(out@) =~= Seq::<Flag>::empty());
    while i < args.len()
        invariant
            all == words(args@),
            i <= args.len(),
            piece_flags(out@) + flags(all.skip(i as int)) == flags(all),
        decreases args.len() - i,
    {
        let ghost before = out@;
        let ghost rest = all.skip(i as int);
        assert(rest[0] == args@[i as int]@);
        if args[i].is(EXTERN_FLAG) && args.len() - i > 1 {
            assert(rest[1] == args@[i + 1]@);
            let piece = Piece::Extern(args[i + 1].copy());
            assert(rest.skip(2) =~= all.skip(i + 2));
            out.push(piece);
            i = i + 2;
            assert(piece_flags(out@) + flags(all.skip(i as int)) =~= piece_flags(before) + (seq![
                piece@,
            ] + flags(rest.skip(2))));
        } else {
            let piece = Piece::Other(args[i].copy());
            assert(rest.skip(1) =~= all.skip(i + 1));
            out.push(piece);
            i = i + 1;
            assert(piece_flags(out@) + flags(all.skip(i as int)) =~= piece_flags(before) + (seq![
                piece@,
            ] + flags(rest.skip(1))));
        }
    }
    assert(piece_flags(out@) + flags(all.skip(i as int)) =~= piece_flags(out@));
    out
}

/// Redirects the flags that have a target, and lists the new values.
fn redirect_pieces(
    pieces: &Vec<Piece>,
    bevy_target: &OsText,
    extern_map: &ExternMap,
    consumer: &str,
) -> (r: (Vec<Piece>, Vec<OsText>))
    ensures
        piece_flags(r.0@) == redirect_flags(
            piece_flags(pieces@),
            bevy_target@,
            extern_map@,
            consumer@,
        ),
        words(r.1@) == redirect_values(
            piece_flags(pieces@),
            bevy_target@,
            extern_map@,
            consumer@,
        ),
{
    let ghost all = piece_flags(pieces@);
    let ghost step = |f: Flag| redirect_flag(f, bevy_target@, extern_map@, consumer@);
    let ghost pick = |f: Flag| flag_target(f, bevy_target@, extern_map@, consumer@);
    let mut out: Vec<Piece> = Vec::new();
    let mut values: Vec<OsText> = Vec::new();
    proof {
        reveal(Seq::filter_map);
        assert(words(values@) =~= all.take(0).filter_map(pick));
        assert(piece_flags(out@) =~= all.take(0).map_values(step));
    }
    for i in 0..pieces.len()
        invariant
            all == piece_flags(pieces@),
            step == (|f: Flag| redirect_flag(f, bevy_target@, extern_map@, consumer@)),
            pick == (|f: Flag| flag_target(f, bevy_target@, extern_map@, consumer@)),
            piece_flags(out@) == all.take(i as int).map_values(step),
            words(values@) == all.take(i as int).filter_map(pick),
    {
        let ghost before = out@;
        let ghost known = values@;
        proof {
            assert(all[i as int] == pieces@[i as int]@);
            all.lemma_filter_map_take_succ(pick, i as int);
            assert(all.take(i + 1) == all.take(i as int).push(all[i as int]));
        }
        let mut target: Option<OsText> = None;
        let piece = match &pieces[i] {
            Piece::Extern(value) => {
                match rewrite_extern(value, bevy_target, extern_map, consumer) {
                    Some(new) => {
                        target = Some(new.copy());
                        Piece::Extern(new)
                    },
                    None => Piece::Extern(value.copy()),
                }
            },
            Piece::Other(word) => Piece::Other(word.copy()),
        };
        assert(piece@ == step(all[i as int]));
        assert(word_of(target) == pick(all[i as int]));
        out.push(piece);
        assert(piece_flags(out@) =~= piece_flags(before).push(piece@));
        assert(piece_flags(out@) =~= all.take(i + 1).map_values(step));
        match target {
            Some(new) => {
                values.push(new);
                assert(words(values@) =~= words(known) + seq![new@]);
            },
            None => {
                assert(words(known) + seq![] =~= words(known));
            },
        }
    }
    assert(all.take(all.len() as int) == all);
    (out, values)
}

/// Whether a flag is among the first `n` pieces.
fn stands_before(piece: &Piece, pieces: &Vec<Piece>, n: usize) -> (r: bool)
    requires
        n <= pieces@.len(),
    ensures
        r == (piece@ is Extern && piece_flags(pieces@).take(n as int).contains(piece@)),
{
    let ghost all = piece_flags(pieces@).take(n as int);
    let value = match piece {
        Piece::Extern(value) => value,
        Piece::Other(_) => return false,
    };
    for j in 0..n
        invariant
            n <= pieces@.len(),
            all == piece_flags(pieces@).take(n as int),
            piece@ == Flag::Extern(value@),
            forall|k: int| 0 <= k < j ==> all[k] != piece@,
    {
        assert(all[j as int] == pieces@[j as int]@);
        match &pieces[j] {
            Piece::Extern(other) => if other.same(value) {
                assert(all.contains(piece@));
                return true;
            },
            Piece::Other(_) => {},
        }
    }
    assert(!all.contains(piece@));
    false
}

/// Writes the flags out, repeated ones left out.
fn spell_distinct(pieces: &Vec<Piece>) -> (r: Vec<OsText>)
    ensures
        words(r@) == spelled(without_repeats(piece_flags(pieces@))),
{
    let ghost all = piece_flags(pieces@);
    let mut out: Vec<OsText> = Vec::new();
    assert(words(out@) =~= spelled(without_repeats(all.take(0))));
    for i in 0..pieces.len()
        invariant
            all == piece_flags(pieces@),
            words(out@) == spelled(without_repeats(all.take(i as int))),
    {
        let ghost before = out@;
        proof {
            assert(all.take(i + 1).drop_last() == all.take(i as int));
            assert(all.take(i + 1).last() == pieces@[i as int]@);
            let kept = without_repeats(all.take(i as int));
            assert(kept.push(all[i as int]).drop_last() =~= kept);
        }
        if !stands_before(&pieces[i], pieces, i) {
            match &pieces[i] {
                Piece::Extern(value) => {
                    out.push(OsText::new(EXTERN_FLAG));
                    out.push(value.copy());
                },
                Piece::Other(word) => {
                    out.push(word.copy());
                },
            }
            assert(words(out@) =~= words(before) + flag_words(all[i as int]));
        }
    }
    assert(all.take(all.len() as int) == all);
    out
}

/// The values that are there, each once.
fn distinct_list(values: &Vec<Option<OsText>>) -> (r: Vec<OsText>)
    ensures
        words(r@) == distinct(optional_words(values@)),
{
    let ghost all = optional_words(values@);
    let mut out: Vec<OsText> = Vec::new();
    assert(words(out@) =~= distinct(all.take(0)));
    for i in 0..values.len()
        invariant
            all == optional_words(values@),
            words(out@) == distinct(all.take(i as int)),
    {
        proof {
            assert(all.take(i + 1).drop_last() == all.take(i as int));
            assert(all.take(i + 1).last() == word_of(values@[i as int]));
        }
        match &values[i] {
            Some(value) => if !among(value, &out) {
                let ghost before = out@;
                out.push(value.copy());
                assert(words(out@) =~= words(before).push(value@));
            },
            None => {},
        }
    }
    assert(all.take(all.len() as int) == all);
    out
}

/// Writing flags out one sequence after the other is writing them out
/// together.
proof fn lemma_spelled_concat(a: Seq<Flag>, b: Seq<Flag>)
    ensures
        spelled(a + b) == spelled(a) + spelled(b),
    decreases b.len(),
{
    if b.len() == 0 {
        assert(a + b =~= a);
        assert(spelled(a) + spelled(b) =~= spelled(a));
    } else {
        lemma_spelled_concat(a, b.drop_last());
        assert((a + b).drop_last() =~= a + b.drop_last());
        assert(spelled(a + b) =~= spelled(a) + spelled(b));
    }
}

/// The new values of the `--extern` flags that redirect.
pub fn redirected_values(
    args: &Vec<OsText>,
    bevy_target: &OsText,
    extern_map: &ExternMap,
    consumer: &str,
) -> (r: Vec<OsText>)
    ensures
        words(r@) == redirect_values(
            flags(words(args@)),
            bevy_target@,
            extern_map@,
            consumer@,
        ),
{
    redirect_pieces(&split_flags(args), bevy_target, extern_map, consumer).1
}

/// Redirects the `--extern` flags of an invocation, given the companion of
/// each redirected value.
pub fn redirect_args(
    args: &Vec<OsText>,
    bevy_target: &OsText,
    extern_map: &ExternMap,
    consumer: &str,
    companions: &Vec<Option<OsText>>,
) -> (r: Vec<OsText>)
    ensures
        words(r@) == redirected_args(
            words(args@),
            bevy_target@,
            extern_map@,
            consumer@,
            optional_words(companions@),
        ),
{
    let (pieces, _) = redirect_pieces(&split_flags(args), bevy_target, extern_map, consumer);
    let mut out = spell_distinct(&pieces);
    let more = distinct_list(companions);
    let ghost kept = without_repeats(piece_flags(pieces@));
    let ghost all = externs(words(more@));
    assert(words(out@) + spelled(all.take(0)) =~= words(out@));
    for i in 0..more.len()
        invariant
            all == externs(words(more@)),
            words(out@) == spelled(kept) + spelled(all.take(i as int)),
    {
        let ghost before = out@;
        proof {
            assert(all.take(i + 1).drop_last() == all.take(i as int));
            assert(all[i as int] == Flag::Extern(more@[i as int]@));
        }
        out.push(OsText::new(EXTERN_FLAG));
        out.push(more[i].copy());
        assert(words(out@) =~= words(before) + flag_words(all[i as int]));
    }
    proof {
        assert(all.take(all.len() as int) == all);
        lemma_spelled_concat(kept, all);
    }
    out
}

} // verus!
