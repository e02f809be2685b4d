//! What holds of rewritten flags, told by the arguments and the plan they are
//! made from.

use vstd::prelude::*;
use crate::extern_map::{entry_views, plan_entries, plan_entry, target_of, ExternMap, MapEdge, PlanEntry};
use crate::json_laws::{lemma_picked_concat, lemma_picked_one};
use crate::os_text::{word_of, word_ref, words, OsText, Word};
use crate::redirect::{companion_of, distinct, extern_parts, externs, flag_target, flags, optional_words, redirect_flags, redirect_values, redirected, redirected_args, spelled, value_companion, value_probe, without_repeats, Flag, Reading};
use crate::text::lines;
use crate::text_laws::{a_text_is_cut_at_the_first, lines_end_in_line_feeds};
use crate::wrapper_laws::{each_companion_is_passed_once, each_dependency_is_passed_once};

verus! {

/// Arguments, plan edges and lists of them are seen as they are, in their
/// order.
pub proof fn arguments_are_seen_as_they_are(
    text: String,
    bytes: Vec<u8>,
    lossy: String,
    list: Seq<OsText>,
    found: Seq<Option<OsText>>,
    edge: MapEdge,
    edges: Seq<MapEdge>,
    map: ExternMap,
    one: OsText,
)
    ensures
        OsText::Text(text)@ == Word::Text(text@),
        (OsText::Raw { bytes, lossy })@ == (Word::Raw { bytes: bytes@, lossy: lossy@ }),
        words(list).len() == list.len(),
        forall|i: int| 0 <= i < list.len() ==> (#[trigger] words(list)[i]) == list[i]@,
        optional_words(found).len() == found.len(),
        forall|i: int|
            0 <= i < found.len() ==> (#[trigger] optional_words(found)[i]) == word_of(found[i]),
        word_of(Some(one)) == Some(one@),
        word_of(None) is None,
        word_ref(Some(&one)) == Some(one@),
        word_ref(None) is None,
        edge@.consumer == edge.consumer@,
        edge@.alias == edge.alias@,
        edge@.artifact == edge.artifact@,
        entry_views(edges).len() == edges.len(),
        forall|i: int| 0 <= i < edges.len() ==> (#[trigger] entry_views(edges)[i]) == edges[i]@,
        map@ == entry_views(map.edges@),
{
}

/// A text before an argument stays before it: what can be read of the
/// argument is read behind the text.
pub proof fn what_is_put_before_stays_before(
    prefix: Seq<char>,
    text: Seq<char>,
    bytes: Seq<u8>,
    lossy: Seq<char>,
)
    ensures
        Word::Text(text).after(prefix) == Word::Text(prefix + text),
        (Word::Raw { bytes, lossy }).after(prefix).text() is None,
        (Word::Raw { bytes, lossy }).after(prefix).lossy() == prefix + lossy,
        (Word::Raw { bytes, lossy }).after(prefix)->Raw_bytes == vstd::utf8::encode_utf8(prefix)
            + bytes,
        Word::Text(text).text() == Some(text),
        Word::Text(text).lossy() == text,
        (Word::Raw { bytes, lossy }).text() is None,
        (Word::Raw { bytes, lossy }).lossy() == lossy,
{
}

/// A line of a plan gives consumer, alias and artifact; the artifact is all
/// that follows the first `=`.
pub proof fn a_plan_line_gives_an_edge(
    consumer: Seq<char>,
    alias: Seq<char>,
    artifact: Seq<char>,
)
    requires
        !consumer.contains(':'),
        !consumer.contains('='),
        !alias.contains('='),
    ensures
        plan_entry(consumer + seq![':'] + alias + seq!['='] + artifact) == Some(
            PlanEntry { consumer, alias, artifact },
        ),
        plan_entry(consumer + seq!['='] + artifact) is None,
        plan_entry(consumer) is None,
{
    let edge = consumer + seq![':'] + alias;
    assert(!edge.contains('=')) by {
        if edge.contains('=') {
            let k = choose|k: int| 0 <= k < edge.len() && edge[k] == '=';
            if k < consumer.len() {
                assert(consumer[k] == '=');
            } else {
                assert(alias[k - consumer.len() - 1] == '=');
            }
        }
    }
    a_text_is_cut_at_the_first(edge, '=', artifact);
    a_text_is_cut_at_the_first(consumer, ':', alias);
    a_text_is_cut_at_the_first(consumer, '=', artifact);
}

/// A plan is read line by line, in order; a line that gives no edge is passed
/// over.
pub proof fn a_plan_is_read_line_by_line(line: Seq<char>, rest: Seq<char>)
    requires
        !line.contains('\n'),
        line.len() == 0 || line.last() != '\r',
    ensures
        plan_entries(line + seq!['\n'] + rest) == (match plan_entry(line) {
            Some(entry) => seq![entry],
            None => Seq::<PlanEntry>::empty(),
        }) + plan_entries(rest),
        line.len() > 0 ==> plan_entries(line) == match plan_entry(line) {
            Some(entry) => seq![entry],
            None => Seq::<PlanEntry>::empty(),
        },
        plan_entries(seq![]) == Seq::<PlanEntry>::empty(),
{
    let pick = |l: Seq<char>| plan_entry(l);
    lines_end_in_line_feeds(line, rest);
    lemma_picked_concat(seq![line], lines(rest), pick);
    lemma_picked_one(line, pick);
    reveal(Seq::filter_map);
}

/// The first edge of a consumer's dependency is where it redirects to.
pub proof fn the_first_edge_of_a_dependency_counts(
    before: Seq<PlanEntry>,
    edge: PlanEntry,
    after: Seq<PlanEntry>,
)
    requires
        forall|i: int|
            0 <= i < before.len() ==> !((#[trigger] before[i]).consumer == edge.consumer
                && before[i].alias == edge.alias),
    ensures
        target_of(before + seq![edge] + after, edge.consumer, edge.alias) == Some(edge.artifact),
        target_of(before, edge.consumer, edge.alias) is None,
    decreases before.len(),
{
    let all = before + seq![edge] + after;
    if before.len() > 0 {
        let rest = before.drop_first();
        assert forall|i: int| 0 <= i < rest.len() implies !((#[trigger] rest[i]).consumer
            == edge.consumer && rest[i].alias == edge.alias) by {
            assert(rest[i] == before[i + 1]);
        }
        the_first_edge_of_a_dependency_counts(rest, edge, after);
        assert(all[0] == before[0]);
        assert(all.drop_first() =~= rest + seq![edge] + after);
    } else {
        assert(all[0] == edge);
    }
}

/// A value with an edge in the plan keeps its alias and gets the artifact of
/// the edge; the facade gets the SDK whatever the plan says. A value without
/// an alias, or that is not text, is left alone.
pub proof fn a_value_keeps_its_alias(
    before: Seq<PlanEntry>,
    edge: PlanEntry,
    after: Seq<PlanEntry>,
    path: Seq<char>,
    bare: Seq<char>,
    bytes: Seq<u8>,
    lossy: Seq<char>,
    bevy_target: Word,
)
    requires
        forall|i: int|
            0 <= i < before.len() ==> !((#[trigger] before[i]).consumer == edge.consumer
                && before[i].alias == edge.alias),
        !edge.alias.contains('='),
        !bare.contains('='),
    ensures
        ({
            let edges = before + seq![edge] + after;
            let value = Word::Text(edge.alias + seq!['='] + path);
            &&& edge.alias != "bevy"@ ==> redirected(value, bevy_target, edges, edge.consumer)
                == Some(Word::Text(edge.alias + seq!['='] + edge.artifact))
            &&& edge.alias == "bevy"@ ==> redirected(value, bevy_target, edges, edge.consumer)
                == Some(bevy_target.after("bevy"@ + seq!['=']))
            &&& redirected(Word::Text(bare), bevy_target, edges, edge.consumer) is None
            &&& redirected((Word::Raw { bytes, lossy }), bevy_target, edges, edge.consumer) is None
        }),
{
    reveal_strlit("=");
    assert("="@ =~= seq!['=']);
    the_first_edge_of_a_dependency_counts(before, edge, after);
    a_text_is_cut_at_the_first(edge.alias, '=', path);
    a_text_is_cut_at_the_first(bare, '=', path);
}

/// Arguments without an `--extern` are taken one by one; an `--extern` takes
/// the argument behind it for its value, whatever that is, and the next one
/// is looked at afresh. One at the very end has no value.
pub proof fn an_extern_takes_the_next_argument(
    plain: Seq<Word>,
    value: Word,
    rest: Seq<Word>,
)
    requires
        forall|i: int| 0 <= i < plain.len() ==> (#[trigger] plain[i]) != Word::Text("--extern"@),
    ensures
        flags(plain + seq![Word::Text("--extern"@), value] + rest) == others(plain) + seq![
            Flag::Extern(value),
        ] + flags(rest),
        flags(plain) == others(plain),
        flags(plain.push(Word::Text("--extern"@))) == others(plain).push(
            Flag::Other(Word::Text("--extern"@)),
        ),
    decreases plain.len(),
{
    let all = plain + seq![Word::Text("--extern"@), value] + rest;
    let open = plain.push(Word::Text("--extern"@));
    if plain.len() > 0 {
        let tail = plain.skip(1);
        assert forall|i: int| 0 <= i < tail.len() implies (#[trigger] tail[i]) != Word::Text(
            "--extern"@,
        ) by {
            assert(tail[i] == plain[i + 1]);
        }
        an_extern_takes_the_next_argument(tail, value, rest);
        assert(plain[0] != Word::Text("--extern"@));
        assert(all[0] == plain[0] && open[0] == plain[0]);
        assert(all.skip(1) =~= tail + seq![Word::Text("--extern"@), value] + rest);
        assert(open.skip(1) =~= tail.push(Word::Text("--extern"@)));
        assert(others(plain) =~= seq![Flag::Other(plain[0])] + others(tail));
        assert(flags(all) =~= others(plain) + seq![Flag::Extern(value)] + flags(rest));
        assert(flags(plain) =~= others(plain));
        assert(flags(open) =~= others(plain).push(Flag::Other(Word::Text("--extern"@))));
    } else {
        assert(all.skip(2) =~= rest);
        assert(all[0] == Word::Text("--extern"@) && all[1] == value);
        assert(others(plain) =~= Seq::<Flag>::empty());
        assert(flags(all) =~= others(plain) + seq![Flag::Extern(value)] + flags(rest));
        assert(open.skip(1) =~= Seq::<Word>::empty());
        assert(flags(open.skip(1)) =~= Seq::<Flag>::empty());
        assert(open[0] == Word::Text("--extern"@));
        assert(flags(open) =~= others(plain).push(Flag::Other(Word::Text("--extern"@))));
    }
}

/// Arguments that are no dependencies.
pub open spec fn others(args: Seq<Word>) -> Seq<Flag> {
    args.map_values(|w: Word| Flag::Other(w))
}

/// Flags are written one after the other: a dependency as `--extern` and its
/// value, any other as it is.
pub proof fn flags_are_written_one_after_the_other(
    a: Seq<Flag>,
    b: Seq<Flag>,
    value: Word,
    word: Word,
)
    ensures
        spelled(a + b) == spelled(a) + spelled(b),
        spelled(seq![Flag::Extern(value)]) == seq![Word::Text("--extern"@), value],
        spelled(seq![Flag::Other(word)]) == seq![word],
        spelled(seq![]) == Seq::<Word>::empty(),
    decreases b.len(),
{
    assert(spelled(seq![]) =~= Seq::<Word>::empty());
    assert(seq![Flag::Extern(value)].drop_last() =~= Seq::<Flag>::empty());
    assert(seq![Flag::Other(word)].drop_last() =~= Seq::<Flag>::empty());
    assert(seq![Flag::Extern(value)].last() == Flag::Extern(value));
    assert(seq![Flag::Other(word)].last() == Flag::Other(word));
    assert(spelled(seq![Flag::Extern(value)]) =~= seq![Word::Text("--extern"@), value]);
    assert(spelled(seq![Flag::Other(word)]) =~= seq![word]);
    if b.len() == 0 {
        assert(a + b =~= a);
        assert(spelled(a) + spelled(b) =~= spelled(a));
    } else {
        flags_are_written_one_after_the_other(a, b.drop_last(), value, word);
        assert((a + b).drop_last() =~= a + b.drop_last());
        assert((a + b).last() == b.last());
        assert(spelled(a + b) =~= spelled(a) + spelled(b));
    }
}

/// A dependency among flags stands in what they are written as: `--extern`
/// and, directly behind it, its value.
pub proof fn a_dependency_is_written_as_a_pair(fs: Seq<Flag>, i: int, value: Word)
    requires
        0 <= i < fs.len(),
        fs[i] == Flag::Extern(value),
    ensures
        exists|k: int|
            0 <= k < spelled(fs).len() - 1 && (#[trigger] spelled(fs)[k]) == Word::Text(
                "--extern"@,
            ) && spelled(fs)[k + 1] == value,
{
    let a = fs.take(i);
    let b = fs.skip(i + 1);
    let one = seq![Flag::Extern(value)];
    assert(fs =~= a + one + b);
    flags_are_written_one_after_the_other(a + one, b, value, value);
    flags_are_written_one_after_the_other(a, one, value, value);
    let k = spelled(a).len() as int;
    let out = spelled(fs);
    assert(out == spelled(a) + seq![Word::Text("--extern"@), value] + spelled(b));
    assert(out[k] == Word::Text("--extern"@));
    assert(out[k + 1] == value);
}

/// What a flag becomes: the value that it redirects to in place of its own.
pub open spec fn becomes(
    f: Flag,
    bevy_target: Word,
    edges: Seq<PlanEntry>,
    consumer: Seq<char>,
) -> Flag {
    match f {
        Flag::Extern(value) => match redirected(value, bevy_target, edges, consumer) {
            Some(new) => Flag::Extern(new),
            None => Flag::Extern(value),
        },
        Flag::Other(word) => Flag::Other(word),
    }
}

/// Every dependency of an invocation is passed in the rewritten arguments:
/// `--extern` and directly behind it the value it redirects to, or its own.
pub proof fn every_dependency_is_passed(
    args: Seq<Word>,
    bevy_target: Word,
    edges: Seq<PlanEntry>,
    consumer: Seq<char>,
    companions: Seq<Option<Word>>,
    i: int,
    value: Word,
)
    requires
        0 <= i < flags(args).len(),
        flags(args)[i] == Flag::Extern(value),
    ensures
        ({
            let out = redirected_args(args, bevy_target, edges, consumer, companions);
            let passed = match redirected(value, bevy_target, edges, consumer) {
                Some(new) => new,
                None => value,
            };
            exists|k: int|
                0 <= k < out.len() - 1 && (#[trigger] out[k]) == Word::Text("--extern"@) && out[k
                    + 1] == passed
        }),
{
    let moved = redirect_flags(flags(args), bevy_target, edges, consumer);
    let passed = match redirected(value, bevy_target, edges, consumer) {
        Some(new) => new,
        None => value,
    };
    assert(moved[i] == Flag::Extern(passed));
    assert(moved.contains(Flag::Extern(passed)));
    each_dependency_is_passed_once(moved);
    let kept = without_repeats(moved);
    assert(kept.contains(Flag::Extern(passed)));
    let k = choose|k: int| 0 <= k < kept.len() && kept[k] == Flag::Extern(passed);
    let all = kept + externs(distinct(companions));
    assert(all[k] == Flag::Extern(passed));
    a_dependency_is_written_as_a_pair(all, k, passed);
    let out = redirected_args(args, bevy_target, edges, consumer, companions);
    assert(out == spelled(all));
    let n = choose|n: int|
        0 <= n < spelled(all).len() - 1 && (#[trigger] spelled(all)[n]) == Word::Text(
            "--extern"@,
        ) && spelled(all)[n + 1] == passed;
    assert(out[n] == Word::Text("--extern"@) && out[n + 1] == passed);
}

/// Every companion of a redirected value is passed in the rewritten
/// arguments: `--extern` and directly behind it the companion.
pub proof fn every_companion_is_passed(
    args: Seq<Word>,
    bevy_target: Word,
    edges: Seq<PlanEntry>,
    consumer: Seq<char>,
    companions: Seq<Option<Word>>,
    i: int,
    companion: Word,
)
    requires
        0 <= i < companions.len(),
        companions[i] == Some(companion),
    ensures
        ({
            let out = redirected_args(args, bevy_target, edges, consumer, companions);
            exists|k: int|
                0 <= k < out.len() - 1 && (#[trigger] out[k]) == Word::Text("--extern"@) && out[k
                    + 1] == companion
        }),
{
    let kept = without_repeats(redirect_flags(flags(args), bevy_target, edges, consumer));
    let more = distinct(companions);
    each_companion_is_passed_once(companions);
    assert(companions.contains(Some(companion)));
    assert(more.contains(companion));
    let k = choose|k: int| 0 <= k < more.len() && more[k] == companion;
    let all = kept + externs(more);
    assert(all[kept.len() + k] == Flag::Extern(companion));
    a_dependency_is_written_as_a_pair(all, kept.len() + k, companion);
    let out = redirected_args(args, bevy_target, edges, consumer, companions);
    assert(out == spelled(all));
    let n = choose|n: int|
        0 <= n < spelled(all).len() - 1 && (#[trigger] spelled(all)[n]) == Word::Text(
            "--extern"@,
        ) && spelled(all)[n + 1] == companion;
    assert(out[n] == Word::Text("--extern"@) && out[n + 1] == companion);
}

/// Whether flags are those of an invocation with their values redirected, in
/// their order, of which only repeated dependencies are left out. `at` tells
/// where each comes from.
pub open spec fn is_rebuilt(
    fs: Seq<Flag>,
    bevy_target: Word,
    edges: Seq<PlanEntry>,
    consumer: Seq<char>,
    kept: Seq<Flag>,
    at: Seq<int>,
) -> bool {
    &&& at.len() == kept.len()
    &&& forall|i: int|
        0 <= i < at.len() ==> 0 <= #[trigger] at[i] < fs.len() && kept[i] == becomes(
            fs[at[i]],
            bevy_target,
            edges,
            consumer,
        )
    &&& forall|i: int, j: int| 0 <= i < j < at.len() ==> #[trigger] at[i] < #[trigger] at[j]
    &&& forall|k: int|
        0 <= k < fs.len() && !at.contains(k) ==> becomes(
            #[trigger] fs[k],
            bevy_target,
            edges,
            consumer,
        ) is Extern && exists|j: int|
            0 <= j < k && becomes(#[trigger] fs[j], bevy_target, edges, consumer) == becomes(
                fs[k],
                bevy_target,
                edges,
                consumer,
            )
    &&& forall|i: int, j: int|
        0 <= i < j < kept.len() && kept[i] is Extern ==> (#[trigger] kept[i]) != (
        #[trigger] kept[j])
}

/// Whether values are the companions that there are, in their order, each
/// where it first stands. `at` tells where each comes from.
pub open spec fn are_companions(
    companions: Seq<Option<Word>>,
    more: Seq<Word>,
    at: Seq<int>,
) -> bool {
    &&& at.len() == more.len()
    &&& forall|i: int|
        0 <= i < at.len() ==> 0 <= #[trigger] at[i] < companions.len() && companions[at[i]] == Some(
            more[i],
        )
    &&& forall|i: int, j: int| 0 <= i < j < at.len() ==> #[trigger] at[i] < #[trigger] at[j]
    &&& more.no_duplicates()
    &&& forall|k: int|
        0 <= k < companions.len() && (#[trigger] companions[k]) is Some ==> more.contains(
            companions[k]->0,
        )
}

proof fn lemma_rebuilt(
    fs: Seq<Flag>,
    bevy_target: Word,
    edges: Seq<PlanEntry>,
    consumer: Seq<char>,
) -> (at: Seq<int>)
    ensures
        is_rebuilt(
            fs,
            bevy_target,
            edges,
            consumer,
            without_repeats(redirect_flags(fs, bevy_target, edges, consumer)),
            at,
        ),
    decreases fs.len(),
{
    let moved = redirect_flags(fs, bevy_target, edges, consumer);
    let kept = without_repeats(moved);
    each_dependency_is_passed_once(moved);
    if fs.len() == 0 {
        seq![]
    } else {
        let init = fs.drop_last();
        let last = fs.len() - 1;
        let before = redirect_flags(init, bevy_target, edges, consumer);
        assert(moved.drop_last() =~= before);
        assert(moved.last() == becomes(fs[last], bevy_target, edges, consumer));
        let at = lemma_rebuilt(init, bevy_target, edges, consumer);
        let dropped = moved.last() is Extern && before.contains(moved.last());
        let all = if dropped {
            at
        } else {
            at.push(last)
        };
        assert forall|k: int| 0 <= k < fs.len() && !all.contains(k) implies becomes(
            #[trigger] fs[k],
            bevy_target,
            edges,
            consumer,
        ) is Extern && exists|j: int|
            0 <= j < k && becomes(#[trigger] fs[j], bevy_target, edges, consumer) == becomes(
                fs[k],
                bevy_target,
                edges,
                consumer,
            ) by {
            if k < last {
                assert(init[k] == fs[k]);
                assert(!at.contains(k)) by {
                    if at.contains(k) {
                        let x = choose|x: int| 0 <= x < at.len() && at[x] == k;
                        assert(all[x] == k);
                    }
                }
                let j = choose|j: int|
                    0 <= j < k && becomes(#[trigger] init[j], bevy_target, edges, consumer)
                        == becomes(init[k], bevy_target, edges, consumer);
                assert(init[j] == fs[j]);
            } else {
                if !dropped {
                    assert(all[at.len() as int] == last);
                }
                let j = choose|j: int| 0 <= j < before.len() && before[j] == moved.last();
                assert(becomes(fs[j], bevy_target, edges, consumer) == before[j]);
            }
        }
        assert forall|i: int| 0 <= i < all.len() implies 0 <= #[trigger] all[i] < fs.len()
            && kept[i] == becomes(fs[all[i]], bevy_target, edges, consumer) by {
            if i < at.len() {
                assert(all[i] == at[i]);
                assert(init[at[i]] == fs[at[i]]);
            }
        }
        all
    }
}

proof fn lemma_companions(companions: Seq<Option<Word>>) -> (at: Seq<int>)
    ensures
        are_companions(companions, distinct(companions), at),
    decreases companions.len(),
{
    each_companion_is_passed_once(companions);
    let more = distinct(companions);
    assert forall|k: int| 0 <= k < companions.len() && (
    #[trigger] companions[k]) is Some implies more.contains(companions[k]->0) by {
        assert(companions.contains(Some(companions[k]->0)));
    }
    if companions.len() == 0 {
        seq![]
    } else {
        let init = companions.drop_last();
        let last = companions.len() - 1;
        let at = lemma_companions(init);
        let before = distinct(init);
        match companions.last() {
            Some(w) if !before.contains(w) => {
                let all = at.push(last);
                assert forall|i: int| 0 <= i < all.len() implies 0 <= #[trigger] all[i]
                    < companions.len() && companions[all[i]] == Some(more[i]) by {
                    if i < at.len() {
                        assert(all[i] == at[i]);
                        assert(init[at[i]] == companions[at[i]]);
                    }
                }
                all
            },
            _ => {
                assert forall|i: int| 0 <= i < at.len() implies 0 <= #[trigger] at[i]
                    < companions.len() && companions[at[i]] == Some(more[i]) by {
                    assert(init[at[i]] == companions[at[i]]);
                }
                at
            },
        }
    }
}

/// The rewritten arguments are the flags of the invocation with their values
/// redirected, in their order and without repeated dependencies, and behind
/// them the companions as dependencies, in their order and each once. Nothing
/// else is in them, and nothing is missing.
pub proof fn an_invocation_is_rebuilt(
    args: Seq<Word>,
    bevy_target: Word,
    edges: Seq<PlanEntry>,
    consumer: Seq<char>,
    companions: Seq<Option<Word>>,
)
    ensures
        exists|kept: Seq<Flag>, at: Seq<int>, more: Seq<Word>, from: Seq<int>|
            {
                &&& #[trigger] is_rebuilt(flags(args), bevy_target, edges, consumer, kept, at)
                &&& #[trigger] are_companions(companions, more, from)
                &&& redirected_args(args, bevy_target, edges, consumer, companions) == spelled(
                    kept + Seq::new(more.len(), |i: int| Flag::Extern(more[i])),
                )
            },
{
    let kept = without_repeats(redirect_flags(flags(args), bevy_target, edges, consumer));
    let at = lemma_rebuilt(flags(args), bevy_target, edges, consumer);
    let more = distinct(companions);
    let from = lemma_companions(companions);
    assert(externs(more) =~= Seq::new(more.len(), |i: int| Flag::Extern(more[i])));
    assert(is_rebuilt(flags(args), bevy_target, edges, consumer, kept, at));
    assert(are_companions(companions, more, from));
}

/// The values that redirect are listed flag by flag, in order: of two lists
/// of flags together those of the one and then of the other, of a dependency
/// what it redirects to, of any other flag none.
pub proof fn redirected_values_follow_the_flags(
    a: Seq<Flag>,
    b: Seq<Flag>,
    value: Word,
    word: Word,
    bevy_target: Word,
    edges: Seq<PlanEntry>,
    consumer: Seq<char>,
)
    ensures
        redirect_values(a + b, bevy_target, edges, consumer) == redirect_values(
            a,
            bevy_target,
            edges,
            consumer,
        ) + redirect_values(b, bevy_target, edges, consumer),
        redirect_values(seq![Flag::Extern(value)], bevy_target, edges, consumer) == match redirected(
            value,
            bevy_target,
            edges,
            consumer,
        ) {
            Some(new) => seq![new],
            None => Seq::<Word>::empty(),
        },
        redirect_values(seq![Flag::Other(word)], bevy_target, edges, consumer) == Seq::<
            Word,
        >::empty(),
{
    let pick = |f: Flag| flag_target(f, bevy_target, edges, consumer);
    lemma_picked_concat(a, b, pick);
    lemma_picked_one(Flag::Extern(value), pick);
    lemma_picked_one(Flag::Other(word), pick);
}

/// A value is an alias and a path with the first `=` between them; anything
/// else has neither, no companion, and nothing to look for.
pub proof fn a_value_is_alias_and_path(
    alias: Seq<char>,
    path: Seq<char>,
    bytes: Seq<u8>,
    lossy: Seq<char>,
    reading: Reading,
    rmeta: Option<Word>,
    files: Seq<Word>,
)
    requires
        !alias.contains('='),
    ensures
        extern_parts(Word::Text(alias + seq!['='] + path)) == Some((alias, path)),
        extern_parts(Word::Text(alias)) is None,
        extern_parts((Word::Raw { bytes, lossy })) is None,
        value_companion(Word::Text(alias), reading, rmeta, files) is None,
        value_companion((Word::Raw { bytes, lossy }), reading, rmeta, files) is None,
        value_companion(Word::Text(alias + seq!['='] + path), reading, rmeta, files)
            == companion_of(alias, reading, rmeta, files),
        value_probe(Word::Text(alias), reading) is None,
        value_probe((Word::Raw { bytes, lossy }), reading) is None,
        value_probe(Word::Text(alias + seq!['='] + path), reading) == if reading.extension == Some(
            "rmeta"@,
        ) {
            None
        } else {
            Some(Word::Text(reading.sibling))
        },
{
    a_text_is_cut_at_the_first(alias, '=', path);
}

/// Metadata has no companion. The library takes the metadata that is given
/// for it; any other artifact, and the library where none is given, takes the
/// file beside it, if it is there. The alias is kept.
pub proof fn a_companion_is_given_or_beside(
    alias: Seq<char>,
    extension: Option<Seq<char>>,
    sibling: Seq<char>,
    given: Word,
    files: Seq<Word>,
)
    requires
        extension != Some("rmeta"@),
    ensures
        ({
            let at_library = Reading { extension, is_dylib: true, sibling };
            let elsewhere = Reading { extension, is_dylib: false, sibling };
            let is_metadata = Reading { extension: Some("rmeta"@), is_dylib: true, sibling };
            &&& companion_of(alias, at_library, Some(given), files) == Some(
                given.after(alias + seq!['=']),
            )
            &&& companion_of(alias, is_metadata, Some(given), files) is None
            &&& companion_of(alias, is_metadata, None, files) is None
            &&& files.contains(Word::Text(sibling)) ==> {
                &&& companion_of(alias, at_library, None, files) == Some(
                    Word::Text(alias + seq!['='] + sibling),
                )
                &&& companion_of(alias, elsewhere, Some(given), files) == Some(
                    Word::Text(alias + seq!['='] + sibling),
                )
                &&& companion_of(alias, elsewhere, None, files) == Some(
                    Word::Text(alias + seq!['='] + sibling),
                )
            }
            &&& !files.contains(Word::Text(sibling)) ==> {
                &&& companion_of(alias, at_library, None, files) is None
                &&& companion_of(alias, elsewhere, Some(given), files) is None
                &&& companion_of(alias, elsewhere, None, files) is None
            }
        }),
{
    reveal_strlit("=");
    assert("="@ =~= seq!['=']);
}

} // verus!
