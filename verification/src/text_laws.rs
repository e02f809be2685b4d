//! What holds of text operations, told by texts put together from parts.

use vstd::prelude::*;
use crate::order::{ascending, lemma_ascending, pair_precedes, text_precedes, Ordered};
use crate::text::{is_white, join, lemma_cut_at, lemma_cut_parts, lemma_join_front, lemma_last_index, lemma_last_index_is, lemma_lines_front, lines, next_word, occurs, occurs_at, replace, rsplit_once, split, split_once, terminated, texts, trim, trim_end, trim_start, word_end};

verus! {

/// The views of strings are those of each, in their order.
pub proof fn texts_are_the_views_of_each(s: Seq<String>)
    ensures
        texts(s).len() == s.len(),
        forall|i: int| 0 <= i < s.len() ==> (#[trigger] texts(s)[i]) == s[i]@,
{
}

/// A text is cut where the separator first stands, and only where it stands.
pub proof fn a_text_is_cut_at_the_first(head: Seq<char>, c: char, rest: Seq<char>)
    requires
        !head.contains(c),
    ensures
        split_once(head + seq![c] + rest, c) == Some((head, rest)),
        split_once(head, c) is None,
{
    lemma_cut_at(head, c, rest);
    lemma_cut_parts(head, c);
    match split_once(head, c) {
        Some((a, b)) => {
            assert((a + seq![c] + b)[a.len() as int] == c);
        },
        None => {},
    }
}

/// A text is cut from behind where the separator last stands, and only where
/// it stands.
pub proof fn a_text_is_cut_at_the_last(head: Seq<char>, c: char, rest: Seq<char>)
    requires
        !rest.contains(c),
    ensures
        rsplit_once(head + seq![c] + rest, c) == Some((head, rest)),
        rsplit_once(rest, c) is None,
{
    let s = head + seq![c] + rest;
    assert forall|i: int| head.len() < i < s.len() implies s[i] != c by {
        assert(rest[i - head.len() - 1] == s[i]);
    }
    lemma_last_index_is(s, c, head.len() as int);
    assert(s.take(head.len() as int) =~= head);
    assert(s.skip(head.len() as int + 1) =~= rest);
    lemma_last_index(rest, c);
}

/// The pieces of a text are those of the text before a separator and those of
/// the text behind it.
pub proof fn pieces_go_on_behind_a_separator(head: Seq<char>, c: char, rest: Seq<char>)
    requires
        !head.contains(c),
    ensures
        split(head + seq![c] + rest, c) == seq![head] + split(rest, c),
        split(head, c) == seq![head],
{
    a_text_is_cut_at_the_first(head, c, rest);
}

/// Replacing changes each of one character and leaves all others, in place.
pub proof fn replacing_changes_one_character(s: Seq<char>, from: char, to: char)
    ensures
        replace(s, from, to).len() == s.len(),
        forall|i: int|
            0 <= i < s.len() && s[i] == from ==> (#[trigger] replace(s, from, to)[i]) == to,
        forall|i: int|
            0 <= i < s.len() && s[i] != from ==> (#[trigger] replace(s, from, to)[i]) == s[i],
{
}

/// A text occurs in another exactly when that is made of it and what stands
/// around it.
pub proof fn what_occurs_has_something_around_it(s: Seq<char>, t: Seq<char>)
    ensures
        occurs(s, t) <==> exists|front: Seq<char>, back: Seq<char>|
            s == #[trigger] (front + t + back),
{
    if occurs(s, t) {
        let i = choose|i: int| occurs_at(s, t, i);
        let front = s.take(i);
        let back = s.skip(i + t.len());
        assert(s =~= front + t + back);
    }
    if exists|front: Seq<char>, back: Seq<char>| s == #[trigger] (front + t + back) {
        let (front, back) = choose|front: Seq<char>, back: Seq<char>|
            s == #[trigger] (front + t + back);
        let i = front.len() as int;
        assert(s.subrange(i, i + t.len()) =~= t);
        assert(occurs_at(s, t, i));
    }
}

/// White space is what Unicode says it is.
pub proof fn white_space_is_that_of_unicode(c: char)
    ensures
        is_white(c) <==> {
            ||| c == ' ' || c == '\t' || c == '\n' || c == '\r'
            ||| c == '\u{b}' || c == '\u{c}' || c == '\u{85}' || c == '\u{a0}'
            ||| c == '\u{1680}' || '\u{2000}' <= c <= '\u{200a}'
            ||| c == '\u{2028}' || c == '\u{2029}' || c == '\u{202f}'
            ||| c == '\u{205f}' || c == '\u{3000}'
        },
{
}

/// All characters are white space.
pub open spec fn blank(s: Seq<char>) -> bool {
    forall|i: int| 0 <= i < s.len() ==> is_white(#[trigger] s[i])
}

/// White space before a text does not change its trimmed start.
proof fn lemma_start(white: Seq<char>, s: Seq<char>)
    requires
        blank(white),
    ensures
        trim_start(white + s) == trim_start(s),
    decreases white.len(),
{
    if white.len() > 0 {
        let rest = white.drop_first();
        assert forall|i: int| 0 <= i < rest.len() implies is_white(#[trigger] rest[i]) by {
            assert(is_white(white[i + 1]));
        }
        lemma_start(rest, s);
        assert(is_white(white[0]));
        assert((white + s)[0] == white[0]);
        assert((white + s).drop_first() =~= rest + s);
    } else {
        assert(white + s =~= s);
    }
}

proof fn lemma_end(s: Seq<char>, white: Seq<char>)
    requires
        blank(white),
    ensures
        trim_end(s + white) == trim_end(s),
    decreases white.len(),
{
    if white.len() > 0 {
        let rest = white.drop_last();
        assert forall|i: int| 0 <= i < rest.len() implies is_white(#[trigger] rest[i]) by {
            assert(is_white(white[i]));
        }
        lemma_end(s, rest);
        assert(is_white(white[white.len() - 1]));
        assert((s + white).drop_last() =~= s + rest);
    } else {
        assert(s + white =~= s);
    }
}

/// Trimming takes the white space around a text away, and nothing of a text
/// that has none at its ends.
pub proof fn trimming_takes_the_white_space_around(
    before: Seq<char>,
    core: Seq<char>,
    after: Seq<char>,
)
    requires
        blank(before),
        blank(after),
        core.len() > 0 ==> !is_white(core[0]) && !is_white(core.last()),
    ensures
        trim(before + core + after) == core,
{
    if core.len() > 0 {
        assert(before + core + after =~= before + (core + after));
        lemma_start(before, core + after);
        assert((core + after)[0] == core[0]);
        lemma_end(core, after);
    } else {
        assert forall|i: int| 0 <= i < (before + after).len() implies is_white(
            #[trigger] (before + after)[i],
        ) by {
            if i < before.len() {
                assert(is_white(before[i]));
            } else {
                assert(is_white(after[i - before.len()]));
            }
        }
        assert(before + core + after =~= (before + after) + core);
        lemma_start(before + after, core);
        assert(trim_start(core) == core);
        assert(trim_end(core) =~= core);
    }
}

/// The first word of a text is what stands between its white space.
pub proof fn the_first_word_stands_between_white_space(
    before: Seq<char>,
    word: Seq<char>,
    rest: Seq<char>,
)
    requires
        blank(before),
        forall|i: int| 0 <= i < word.len() ==> !is_white(#[trigger] word[i]),
        word.len() > 0,
        rest.len() > 0 ==> is_white(rest[0]),
    ensures
        next_word(before + word + rest) == (word, rest),
{
    assert(before + word + rest =~= before + (word + rest));
    lemma_start(before, word + rest);
    assert(!is_white(word[0]));
    assert((word + rest)[0] == word[0]);
    lemma_word(word, rest);
    assert((word + rest).take(word.len() as int) =~= word);
    assert((word + rest).skip(word.len() as int) =~= rest);
}

proof fn lemma_word(word: Seq<char>, rest: Seq<char>)
    requires
        forall|i: int| 0 <= i < word.len() ==> !is_white(#[trigger] word[i]),
        rest.len() > 0 ==> is_white(rest[0]),
    ensures
        word_end(word + rest) == word.len(),
    decreases word.len(),
{
    let s = word + rest;
    if word.len() > 0 {
        let w = word.drop_first();
        assert forall|i: int| 0 <= i < w.len() implies !is_white(#[trigger] w[i]) by {
            assert(!is_white(word[i + 1]));
        }
        lemma_word(w, rest);
        assert(!is_white(word[0]));
        assert(s[0] == word[0]);
        assert(s.drop_first() =~= w + rest);
    } else {
        assert(s =~= rest);
    }
}

/// A text of white space has no word.
pub proof fn a_blank_text_has_no_word(s: Seq<char>)
    requires
        blank(s),
    ensures
        next_word(s).0.len() == 0,
        trim(s).len() == 0,
{
    lemma_start(s, seq![]);
    assert(s + Seq::<char>::empty() =~= s);
}

/// A line ends in a line feed, and a carriage return before it belongs to the
/// end. What is left at the end of the text is a line of its own.
pub proof fn lines_end_in_line_feeds(line: Seq<char>, rest: Seq<char>)
    requires
        !line.contains('\n'),
        line.len() == 0 || line.last() != '\r',
    ensures
        lines(line + seq!['\n'] + rest) == seq![line] + lines(rest),
        lines(line + seq!['\r', '\n'] + rest) == seq![line] + lines(rest),
        line.len() > 0 ==> lines(line) == seq![line],
        lines(seq![]) == Seq::<Seq<char>>::empty(),
{
    lemma_lines_front(line, rest);
    let with_cr = line.push('\r');
    assert(!with_cr.contains('\n')) by {
        if with_cr.contains('\n') {
            let k = choose|k: int| 0 <= k < with_cr.len() && with_cr[k] == '\n';
            assert(line[k] == '\n');
        }
    }
    lemma_lines_front(with_cr, rest);
    assert(with_cr + seq!['\n'] + rest =~= line + seq!['\r', '\n'] + rest);
    assert(with_cr.drop_last() =~= line);
    lemma_cut_parts(line, '\n');
    crate::text::lemma_first_index(line, '\n');
}

/// Terminated lines are written one after the other, each with one line feed.
pub proof fn lines_are_written_one_after_the_other(a: Seq<Seq<char>>, b: Seq<Seq<char>>, line: Seq<char>)
    ensures
        terminated(a + b) == terminated(a) + terminated(b),
        terminated(seq![line]) == line + seq!['\n'],
        terminated(seq![]) == Seq::<char>::empty(),
    decreases b.len(),
{
    assert(seq![line].drop_last() =~= Seq::<Seq<char>>::empty());
    assert(seq![line].last() == line);
    assert(terminated(seq![]) =~= Seq::<char>::empty());
    assert(terminated(seq![line]) =~= line + seq!['\n']);
    if b.len() == 0 {
        assert(a + b =~= a);
        assert(terminated(a) + terminated(b) =~= terminated(a));
    } else {
        lines_are_written_one_after_the_other(a, b.drop_last(), line);
        assert((a + b).drop_last() =~= a + b.drop_last());
        assert(terminated(a + b) =~= terminated(a) + terminated(b));
    }
}

/// Joined pieces stand one after the other with the separator between them.
pub proof fn pieces_are_joined_by_the_separator(
    first: Seq<char>,
    rest: Seq<Seq<char>>,
    sep: Seq<char>,
)
    ensures
        join(seq![], sep) == Seq::<char>::empty(),
        join(seq![first], sep) == first,
        rest.len() > 0 ==> join(seq![first] + rest, sep) == first + sep + join(rest, sep),
{
    if rest.len() > 0 {
        let all = seq![first] + rest;
        lemma_join_front(all, sep);
        assert(all.drop_first() =~= rest);
    }
}

/// Texts are ordered by the first character in which they differ; a text
/// comes before those that go on behind it.
pub proof fn texts_are_ordered_as_in_a_dictionary(
    start: Seq<char>,
    x: char,
    a: Seq<char>,
    y: char,
    b: Seq<char>,
)
    ensures
        x < y ==> text_precedes(start + seq![x] + a, start + seq![y] + b),
        y < x ==> !text_precedes(start + seq![x] + a, start + seq![y] + b),
        text_precedes(start, start + seq![y] + b),
        !text_precedes(start + seq![y] + b, start),
        !text_precedes(start, start),
    decreases start.len(),
{
    let s = start + seq![x] + a;
    let t = start + seq![y] + b;
    if start.len() > 0 {
        let rest = start.drop_first();
        texts_are_ordered_as_in_a_dictionary(rest, x, a, y, b);
        assert(s.drop_first() =~= rest + seq![x] + a);
        assert(t.drop_first() =~= rest + seq![y] + b);
    }
}

/// Pairs are ordered by their first part, and by their second where the first
/// are equal.
pub proof fn pairs_are_ordered_by_their_first(
    a: (Seq<char>, Seq<char>),
    b: (Seq<char>, Seq<char>),
)
    ensures
        text_precedes(a.0, b.0) && a.0 != b.0 ==> pair_precedes(a, b),
        a.0 == b.0 ==> (pair_precedes(a, b) <==> text_precedes(a.1, b.1)),
        text_precedes(b.0, a.0) && a.0 != b.0 && !text_precedes(a.0, b.0) ==> !pair_precedes(a, b),
{
}

/// The ascending list of a finite set holds each of its texts once, in order.
pub proof fn ascending_texts_are_in_order(keys: Set<Seq<char>>)
    requires
        keys.finite(),
    ensures
        forall|k: Seq<char>| ascending::<String>(keys).contains(k) <==> keys.contains(k),
        forall|i: int, j: int|
            0 <= i < j < ascending::<String>(keys).len() ==> text_precedes(
                #[trigger] ascending::<String>(keys)[i],
                #[trigger] ascending::<String>(keys)[j],
            ),
{
    lemma_ascending::<String>(keys);
    let list = ascending::<String>(keys);
    assert forall|k: Seq<char>| list.contains(k) <==> keys.contains(k) by {
        assert(list.to_set().contains(k) <==> list.contains(k));
    }
    assert forall|i: int, j: int| 0 <= i < j < list.len() implies text_precedes(
        #[trigger] list[i],
        #[trigger] list[j],
    ) by {
        assert(<String as Ordered>::precedes(list[i], list[j]));
    }
}

/// The ascending list of a finite set of pairs holds each of them once, in
/// order.
pub proof fn ascending_pairs_are_in_order(keys: Set<(Seq<char>, Seq<char>)>)
    requires
        keys.finite(),
    ensures
        forall|k: (Seq<char>, Seq<char>)|
            ascending::<(String, String)>(keys).contains(k) <==> keys.contains(k),
        forall|i: int, j: int|
            0 <= i < j < ascending::<(String, String)>(keys).len() ==> pair_precedes(
                #[trigger] ascending::<(String, String)>(keys)[i],
                #[trigger] ascending::<(String, String)>(keys)[j],
            ),
{
    lemma_ascending::<(String, String)>(keys);
    let list = ascending::<(String, String)>(keys);
    assert forall|k: (Seq<char>, Seq<char>)| list.contains(k) <==> keys.contains(k) by {
        assert(list.to_set().contains(k) <==> list.contains(k));
    }
    assert forall|i: int, j: int| 0 <= i < j < list.len() implies pair_precedes(
        #[trigger] list[i],
        #[trigger] list[j],
    ) by {
        assert(<(String, String) as Ordered>::precedes(list[i], list[j]));
    }
}

} // verus!
