//! What holds of response files as a whole.

use vstd::prelude::*;
use crate::argfile::{argfile_path, expanded, file_args, plain_count, shown_args, Expansion};
use crate::os_text::Word;
use crate::text::{is_line, join, lemma_join_front, lemma_lines_front, lemma_lines_whole, lines, strip_cr};

verus! {

/// The arguments expand to `r`: reading files within files to some depth
/// reaches the last of them.
pub open spec fn expands_to(args: Seq<Word>, files: Map<Seq<char>, Seq<char>>, r: Seq<Word>) -> bool {
    exists|depth: nat| #[trigger] expanded(args, files, depth) == Some(r)
}

/// What an expansion under way will end in.
pub open spec fn ends_in(e: Expansion, files: Map<Seq<char>, Seq<char>>, r: Seq<Word>) -> bool {
    exists|rest: Seq<Word>| #[trigger] expands_to(e.pending(), files, rest) && r == e.done() + rest
}

/// Reading files to a greater depth changes nothing once the last is reached.
pub proof fn depth_is_enough(
    args: Seq<Word>,
    files: Map<Seq<char>, Seq<char>>,
    depth: nat,
    more: nat,
)
    requires
        depth <= more,
        expanded(args, files, depth) is Some,
    ensures
        expanded(args, files, more) == expanded(args, files, depth),
    decreases depth, args.len(),
{
    if args.len() > 0 {
        match argfile_path(args[0]) {
            Some(path) => if files.dom().contains(path) {
                depth_is_enough(
                    file_args(files[path]),
                    files,
                    (depth - 1) as nat,
                    (more - 1) as nat,
                );
            },
            None => {},
        }
        depth_is_enough(args.drop_first(), files, depth, more);
    }
}

/// Arguments expand to one result at most.
pub proof fn expansion_is_unique(
    args: Seq<Word>,
    files: Map<Seq<char>, Seq<char>>,
    a: Seq<Word>,
    b: Seq<Word>,
)
    requires
        expands_to(args, files, a),
        expands_to(args, files, b),
    ensures
        a == b,
{
    let m = choose|depth: nat| #[trigger] expanded(args, files, depth) == Some(a);
    let n = choose|depth: nat| #[trigger] expanded(args, files, depth) == Some(b);
    if m <= n {
        depth_is_enough(args, files, m, n);
    } else {
        depth_is_enough(args, files, n, m);
    }
}

/// Arguments expand one after the other: what two lists of them expand to
/// together is what each expands to.
pub proof fn arguments_expand_one_after_the_other(
    a: Seq<Word>,
    b: Seq<Word>,
    files: Map<Seq<char>, Seq<char>>,
    depth: nat,
)
    ensures
        expanded(a + b, files, depth) == match (
            expanded(a, files, depth),
            expanded(b, files, depth),
        ) {
            (Some(x), Some(y)) => Some(x + y),
            _ => None,
        },
    decreases a.len(),
{
    if a.len() == 0 {
        assert(a + b =~= b);
        match expanded(b, files, depth) {
            Some(y) => {
                assert(Seq::<Word>::empty() + y =~= y);
            },
            None => {},
        }
    } else {
        arguments_expand_one_after_the_other(a.drop_first(), b, files, depth);
        assert((a + b).drop_first() =~= a.drop_first() + b);
        assert((a + b)[0] == a[0]);
        match (expanded(a, files, depth), expanded(b, files, depth)) {
            (Some(x), Some(y)) => {
                let rest = expanded(a.drop_first(), files, depth)->0;
                let first = x.take(x.len() - rest.len());
                assert(x =~= first + rest);
                assert(first + (rest + y) =~= x + y);
            },
            _ => {},
        }
    }
}

/// An argument that still stands for a file in a result names one that could
/// not be read.
pub proof fn what_is_left_could_not_be_read(
    args: Seq<Word>,
    files: Map<Seq<char>, Seq<char>>,
    r: Seq<Word>,
    i: int,
)
    requires
        expands_to(args, files, r),
        0 <= i < r.len(),
    ensures
        match argfile_path(r[i]) {
            Some(path) => !files.dom().contains(path),
            None => true,
        },
{
    let depth = choose|depth: nat| #[trigger] expanded(args, files, depth) == Some(r);
    lemma_left(args, files, depth, i);
}

proof fn lemma_left(args: Seq<Word>, files: Map<Seq<char>, Seq<char>>, depth: nat, i: int)
    requires
        expanded(args, files, depth) matches Some(r) && 0 <= i < r.len(),
    ensures
        match argfile_path(expanded(args, files, depth)->0[i]) {
            Some(path) => !files.dom().contains(path),
            None => true,
        },
    decreases depth, args.len(),
{
    let r = expanded(args, files, depth)->0;
    let rest = expanded(args.drop_first(), files, depth)->0;
    let n = r.len() - rest.len();
    if i >= n {
        assert(r[i] == rest[i - n]);
        lemma_left(args.drop_first(), files, depth, i - n);
    } else {
        match argfile_path(args[0]) {
            Some(path) => if files.dom().contains(path) {
                let inner = file_args(files[path]);
                let first = expanded(inner, files, (depth - 1) as nat)->0;
                assert(r[i] == first[i]);
                lemma_left(inner, files, (depth - 1) as nat, i);
            },
            None => {},
        }
    }
}

/// Arguments that stand for no file expand to themselves.
pub proof fn plain_arguments_are_kept(args: Seq<Word>, files: Map<Seq<char>, Seq<char>>)
    requires
        forall|i: int| 0 <= i < args.len() ==> argfile_path(#[trigger] args[i]) is None,
    ensures
        expands_to(args, files, args),
    decreases args.len(),
{
    lemma_plain(args, files, 0);
    assert(expanded(args, files, 0) == Some(args));
}

proof fn lemma_plain(args: Seq<Word>, files: Map<Seq<char>, Seq<char>>, depth: nat)
    requires
        forall|i: int| 0 <= i < args.len() ==> argfile_path(#[trigger] args[i]) is None,
    ensures
        expanded(args, files, depth) == Some(args),
    decreases args.len(),
{
    if args.len() > 0 {
        let rest = args.drop_first();
        assert forall|i: int| 0 <= i < rest.len() implies argfile_path(#[trigger] rest[i]) is None by {
            assert(argfile_path(args[i + 1]) is None);
        }
        lemma_plain(rest, files, depth);
        assert(argfile_path(args[0]) is None);
        assert(seq![args[0]] + rest =~= args);
    } else {
        assert(args =~= seq![]);
    }
}

/// The arguments before the first that stands for a file stand for
/// themselves.
proof fn lemma_plain_count(args: Seq<Word>)
    ensures
        plain_count(args) <= args.len(),
        forall|i: int| 0 <= i < plain_count(args) ==> argfile_path(#[trigger] args[i]) is None,
    decreases args.len(),
{
    if args.len() > 0 && argfile_path(args[0]) is None {
        lemma_plain_count(args.drop_first());
        assert forall|i: int| 0 <= i < plain_count(args) implies argfile_path(
            #[trigger] args[i],
        ) is None by {
            if i > 0 {
                assert(args.drop_first()[i - 1] == args[i]);
            }
        }
    }
}

/// Passing over the arguments that stand for themselves does not change what
/// an expansion ends in. `after` is `before` once
/// [`Expansion::next_file`] was called.
pub proof fn passing_over_keeps_the_result(
    before: Expansion,
    after: Expansion,
    files: Map<Seq<char>, Seq<char>>,
    r: Seq<Word>,
)
    requires
        after.done() == before.done() + before.pending().take(plain_count(before.pending()) as int),
        after.pending() == before.pending().skip(plain_count(before.pending()) as int),
    ensures
        ends_in(before, files, r) <==> ends_in(after, files, r),
{
    let pending = before.pending();
    let n = plain_count(pending) as int;
    lemma_plain_count(pending);
    let head = pending.take(n);
    let tail = pending.skip(n);
    assert(pending =~= head + tail);
    if ends_in(before, files, r) {
        let whole = choose|rest: Seq<Word>| #[trigger]
            expands_to(pending, files, rest) && r == before.done() + rest;
        let depth = choose|depth: nat| #[trigger] expanded(pending, files, depth) == Some(whole);
        arguments_expand_one_after_the_other(head, tail, files, depth);
        lemma_plain(head, files, depth);
        let rest = expanded(tail, files, depth)->0;
        assert(expands_to(tail, files, rest));
        assert(r =~= after.done() + rest);
    }
    if ends_in(after, files, r) {
        let rest = choose|rest: Seq<Word>| #[trigger]
            expands_to(tail, files, rest) && r == after.done() + rest;
        let depth = choose|depth: nat| #[trigger] expanded(tail, files, depth) == Some(rest);
        arguments_expand_one_after_the_other(head, tail, files, depth);
        lemma_plain(head, files, depth);
        assert(expands_to(pending, files, head + rest));
        assert(r =~= before.done() + (head + rest));
    }
}

/// Handing an expansion the contents of the file it asked for does not change
/// what it ends in. `after` is `before` once [`Expansion::supply`] was called
/// with what `files` holds under the path.
pub proof fn supplying_keeps_the_result(
    before: Expansion,
    after: Expansion,
    path: Seq<char>,
    files: Map<Seq<char>, Seq<char>>,
    r: Seq<Word>,
)
    requires
        before.pending().len() > 0,
        argfile_path(before.pending()[0]) == Some(path),
        if files.dom().contains(path) {
            after.done() == before.done() && after.pending() == file_args(files[path])
                + before.pending().drop_first()
        } else {
            after.done() == before.done().push(before.pending()[0]) && after.pending()
                == before.pending().drop_first()
        },
    ensures
        ends_in(before, files, r) <==> ends_in(after, files, r),
{
    let pending = before.pending();
    let tail = pending.drop_first();
    if files.dom().contains(path) {
        let head = file_args(files[path]);
        if ends_in(before, files, r) {
            let whole = choose|rest: Seq<Word>| #[trigger]
                expands_to(pending, files, rest) && r == before.done() + rest;
            let depth = choose|depth: nat| #[trigger] expanded(pending, files, depth) == Some(whole);
            depth_is_enough(head, files, (depth - 1) as nat, depth);
            arguments_expand_one_after_the_other(head, tail, files, depth);
            assert(expands_to(head + tail, files, whole));
        }
        if ends_in(after, files, r) {
            let whole = choose|rest: Seq<Word>| #[trigger]
                expands_to(head + tail, files, rest) && r == after.done() + rest;
            let depth = choose|depth: nat| #[trigger]
                expanded(head + tail, files, depth) == Some(whole);
            arguments_expand_one_after_the_other(head, tail, files, depth);
            depth_is_enough(tail, files, depth, depth + 1);
            assert(expanded(pending, files, depth + 1) == Some(whole));
            assert(expands_to(pending, files, whole));
        }
    } else {
        if ends_in(before, files, r) {
            let whole = choose|rest: Seq<Word>| #[trigger]
                expands_to(pending, files, rest) && r == before.done() + rest;
            let depth = choose|depth: nat| #[trigger] expanded(pending, files, depth) == Some(whole);
            let rest = expanded(tail, files, depth)->0;
            assert(expands_to(tail, files, rest));
            assert(r =~= after.done() + rest);
        }
        if ends_in(after, files, r) {
            let rest = choose|rest: Seq<Word>| #[trigger]
                expands_to(tail, files, rest) && r == after.done() + rest;
            let depth = choose|depth: nat| #[trigger] expanded(tail, files, depth) == Some(rest);
            assert(expanded(pending, files, depth) == Some(seq![pending[0]] + rest));
            assert(expands_to(pending, files, seq![pending[0]] + rest));
            assert(r =~= before.done() + (seq![pending[0]] + rest));
        }
    }
}

/// An expansion with nothing left to look at ends in what is done.
pub proof fn a_finished_expansion_is_the_result(
    e: Expansion,
    files: Map<Seq<char>, Seq<char>>,
    r: Seq<Word>,
)
    requires
        e.pending().len() == 0,
    ensures
        ends_in(e, files, r) <==> r == e.done(),
{
    assert(expanded(e.pending(), files, 0) == Some(Seq::<Word>::empty()));
    assert(expands_to(e.pending(), files, seq![]));
    assert(e.done() + Seq::<Word>::empty() =~= e.done());
    if ends_in(e, files, r) {
        let rest = choose|rest: Seq<Word>| #[trigger]
            expands_to(e.pending(), files, rest) && r == e.done() + rest;
        expansion_is_unique(e.pending(), files, rest, seq![]);
    }
}

/// Arguments that a response file can hold: each is text on one line. The
/// last must not be empty, for nothing ends it.
pub open spec fn listable_args(args: Seq<Word>) -> bool {
    &&& forall|i: int| 0 <= i < args.len() ==> (#[trigger] args[i]) is Text
    &&& forall|i: int| 0 <= i < args.len() ==> !(#[trigger] args[i]).lossy().contains('\n')
    &&& forall|i: int| 0 <= i < args.len() - 1 ==> is_line((#[trigger] args[i]).lossy())
    &&& args.len() > 0 ==> args.last().lossy().len() > 0
}

/// Texts that can be told apart when they are put on lines.
spec fn listable_texts(parts: Seq<Seq<char>>) -> bool {
    &&& forall|i: int| 0 <= i < parts.len() ==> !(#[trigger] parts[i]).contains('\n')
    &&& forall|i: int| 0 <= i < parts.len() - 1 ==> is_line(#[trigger] parts[i])
    &&& parts.len() > 0 ==> parts.last().len() > 0
}

/// Texts that hold no line feed, put on lines, are read back but for a
/// carriage return at the end of one and an empty last one.
proof fn lemma_lines_of_join(parts: Seq<Seq<char>>)
    requires
        forall|i: int| 0 <= i < parts.len() ==> !(#[trigger] parts[i]).contains('\n'),
    ensures
        lines(join(parts, seq!['\n'])) == parts <==> listable_texts(parts),
        parts.len() > 0 ==> lines(join(parts, seq!['\n'])).len() == if parts.last().len() > 0 {
            parts.len() as int
        } else {
            parts.len() - 1
        },
    decreases parts.len(),
{
    let sep = seq!['\n'];
    let whole = join(parts, sep);
    if parts.len() == 0 {
        assert(lines(whole) =~= parts);
    } else if parts.len() == 1 {
        assert(!parts[0].contains('\n'));
        crate::text::lemma_cut_parts(parts[0], '\n');
        if parts[0].len() > 0 {
            crate::text::lemma_first_index(parts[0], '\n');
            assert(lines(whole) =~= seq![parts[0]]);
            assert(lines(whole) =~= parts);
        }
    } else {
        let tail = parts.drop_first();
        let rest = join(tail, sep);
        assert(!parts[0].contains('\n'));
        assert forall|i: int| 0 <= i < tail.len() implies !(#[trigger] tail[i]).contains('\n') by {
            assert(!parts[i + 1].contains('\n'));
        }
        lemma_join_front(parts, sep);
        lemma_lines_front(parts[0], rest);
        lemma_lines_of_join(tail);
        assert(tail.last() == parts.last());
        let read = lines(whole);
        assert(read == seq![strip_cr(parts[0])] + lines(rest));
        if listable_texts(parts) {
            assert(is_line(parts[0]));
            assert forall|i: int| 0 <= i < tail.len() - 1 implies is_line(#[trigger] tail[i]) by {
                assert(is_line(parts[i + 1]));
            }
            assert(listable_texts(tail));
            assert(read =~= parts);
        }
        if read == parts {
            assert(lines(rest) =~= read.drop_first());
            assert(listable_texts(tail));
            assert(read[0] == strip_cr(parts[0]));
            assert(is_line(parts[0]));
            assert forall|i: int| 0 <= i < parts.len() - 1 implies is_line(#[trigger] parts[i]) by {
                if i > 0 {
                    assert(is_line(tail[i - 1]));
                }
            }
        }
    }
}

/// The response file that is written for arguments gives them back, exactly
/// when each of them can stand on a line of its own.
pub proof fn argfile_round_trips(args: Seq<Word>)
    ensures
        file_args(join(shown_args(args), "\n"@)) == args <==> listable_args(args),
{
    reveal_strlit("\n");
    assert("\n"@ =~= seq!['\n']);
    let parts = shown_args(args);
    let whole = join(parts, seq!['\n']);
    if listable_args(args) {
        assert forall|i: int| 0 <= i < parts.len() implies !(#[trigger] parts[i]).contains('\n') by {
            assert(!args[i].lossy().contains('\n'));
        }
        assert forall|i: int| 0 <= i < parts.len() - 1 implies is_line(#[trigger] parts[i]) by {
            assert(is_line(args[i].lossy()));
        }
        assert(listable_texts(parts));
        lemma_lines_of_join(parts);
        assert(file_args(whole) =~= args) by {
            assert forall|i: int| 0 <= i < args.len() implies Word::Text(#[trigger] parts[i])
                == args[i] by {
                assert(args[i] is Text);
            }
        }
    }
    if file_args(whole) == args {
        lemma_lines_whole(whole);
        assert(args.len() == lines(whole).len());
        assert forall|i: int| 0 <= i < args.len() implies (#[trigger] args[i]) is Text && parts[i]
            == lines(whole)[i] && !args[i].lossy().contains('\n') by {
            assert(file_args(whole)[i] == Word::Text(lines(whole)[i]));
        }
        assert(lines(whole) =~= parts);
        assert forall|i: int| 0 <= i < parts.len() implies !(#[trigger] parts[i]).contains('\n') by {
            assert(args[i] is Text);
        }
        lemma_lines_of_join(parts);
        assert forall|i: int| 0 <= i < args.len() - 1 implies is_line(
            (#[trigger] args[i]).lossy(),
        ) by {
            assert(is_line(parts[i]));
        }
        if args.len() > 0 {
            assert(parts.last() == args.last().lossy());
        }
    }
}

} // verus!
