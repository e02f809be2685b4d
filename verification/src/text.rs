//! Text as a sequence of characters: searching, splitting, joining.
//!
//! The specifications read a string as its `Seq<char>`; the executable
//! functions follow `str`'s methods of the same purpose.

use vstd::prelude::*;

verus! {

/// `String::push` appends one character.
pub assume_specification[ String::push ](s: &mut String, c: char)
    ensures
        final(s)@ == old(s)@.push(c),
;

/// The views of a sequence of strings.
pub open spec fn texts(s: Seq<String>) -> Seq<Seq<char>> {
    s.map_values(|t: String| t@)
}

/// Position of the first `c` in `s`, or the length of `s` when there is none.
pub open spec fn first_index(s: Seq<char>, c: char) -> int
    decreases s.len(),
{
    if s.len() == 0 || s[0] == c {
        0
    } else {
        1 + first_index(s.drop_first(), c)
    }
}

/// Position of the last `c` in `s`, or `-1` when there is none.
pub open spec fn last_index(s: Seq<char>, c: char) -> int
    decreases s.len(),
{
    if s.len() == 0 {
        -1
    } else if s.last() == c {
        s.len() - 1
    } else {
        last_index(s.drop_last(), c)
    }
}

/// What stands before and after the first `c`.
pub open spec fn split_once(s: Seq<char>, c: char) -> Option<(Seq<char>, Seq<char>)> {
    let i = first_index(s, c);
    if i < s.len() {
        Some((s.take(i), s.skip(i + 1)))
    } else {
        None
    }
}

/// What stands before and after the last `c`.
pub open spec fn rsplit_once(s: Seq<char>, c: char) -> Option<(Seq<char>, Seq<char>)> {
    let i = last_index(s, c);
    if i >= 0 {
        Some((s.take(i), s.skip(i + 1)))
    } else {
        None
    }
}

/// The pieces of `s` between occurrences of `c`; at least one.
pub open spec fn split(s: Seq<char>, c: char) -> Seq<Seq<char>>
    decreases s.len(),
    via split_decreases
{
    match split_once(s, c) {
        Some((head, tail)) => seq![head] + split(tail, c),
        None => seq![s],
    }
}

#[via_fn]
proof fn split_decreases(s: Seq<char>, c: char) {
    lemma_first_index(s, c);
}

/// A line without the carriage return that precedes its line feed.
pub open spec fn strip_cr(s: Seq<char>) -> Seq<char> {
    if s.len() > 0 && s.last() == '\r' {
        s.drop_last()
    } else {
        s
    }
}

/// The lines of a text. A line ends in `\n` or `\r\n`; the last one may end
/// with the text instead, and is absent when it would be empty.
pub open spec fn lines(s: Seq<char>) -> Seq<Seq<char>>
    decreases s.len(),
    via lines_decreases
{
    if s.len() == 0 {
        seq![]
    } else {
        match split_once(s, '\n') {
            Some((head, tail)) => seq![strip_cr(head)] + lines(tail),
            None => seq![s],
        }
    }
}

#[via_fn]
proof fn lines_decreases(s: Seq<char>) {
    lemma_first_index(s, '\n');
}

/// The pieces with `sep` between each two.
pub open spec fn join(parts: Seq<Seq<char>>, sep: Seq<char>) -> Seq<char>
    decreases parts.len(),
{
    if parts.len() == 0 {
        seq![]
    } else if parts.len() == 1 {
        parts[0]
    } else {
        join(parts.drop_last(), sep) + sep + parts.last()
    }
}

/// The lines, each with a line feed behind it.
pub open spec fn terminated(ls: Seq<Seq<char>>) -> Seq<char>
    decreases ls.len(),
{
    if ls.len() == 0 {
        seq![]
    } else {
        terminated(ls.drop_last()) + ls.last() + seq!['\n']
    }
}

/// A text that is one line once a line feed stands behind it.
pub open spec fn is_line(s: Seq<char>) -> bool {
    !s.contains('\n') && (s.len() == 0 || s.last() != '\r')
}

/// The text with every `from` replaced by `to`.
pub open spec fn replace(s: Seq<char>, from: char, to: char) -> Seq<char> {
    s.map_values(|c: char| if c == from { to } else { c })
}

/// Whether `t` occurs in `s`.
pub open spec fn occurs(s: Seq<char>, t: Seq<char>) -> bool {
    exists|i: int| occurs_at(s, t, i)
}

pub open spec fn occurs_at(s: Seq<char>, t: Seq<char>, i: int) -> bool {
    &&& 0 <= i
    &&& i + t.len() <= s.len()
    &&& s.subrange(i, i + t.len()) == t
}

/// Whether `c` is white space: the `White_Space` property of Unicode.
pub open spec fn is_white(c: char) -> bool {
    let u = c as u32;
    ||| 0x9 <= u <= 0xd
    ||| u == 0x20
    ||| u == 0x85
    ||| u == 0xa0
    ||| u == 0x1680
    ||| 0x2000 <= u <= 0x200a
    ||| u == 0x2028
    ||| u == 0x2029
    ||| u == 0x202f
    ||| u == 0x205f
    ||| u == 0x3000
}

/// The text without the white space it starts with.
pub open spec fn trim_start(s: Seq<char>) -> Seq<char>
    decreases s.len(),
{
    if s.len() > 0 && is_white(s[0]) {
        trim_start(s.drop_first())
    } else {
        s
    }
}

/// The text without the white space it ends with.
pub open spec fn trim_end(s: Seq<char>) -> Seq<char>
    decreases s.len(),
{
    if s.len() > 0 && is_white(s.last()) {
        trim_end(s.drop_last())
    } else {
        s
    }
}

/// The text without the white space around it.
pub open spec fn trim(s: Seq<char>) -> Seq<char> {
    trim_end(trim_start(s))
}

/// The characters of `s` before its first white space.
pub open spec fn word_end(s: Seq<char>) -> int
    decreases s.len(),
{
    if s.len() == 0 || is_white(s[0]) {
        0
    } else {
        1 + word_end(s.drop_first())
    }
}

/// The first word of `s` (empty when there is none) and what follows it.
pub open spec fn next_word(s: Seq<char>) -> (Seq<char>, Seq<char>) {
    let t = trim_start(s);
    (t.take(word_end(t)), t.skip(word_end(t)))
}

pub proof fn lemma_first_index(s: Seq<char>, c: char)
    ensures
        0 <= first_index(s, c) <= s.len(),
        first_index(s, c) < s.len() ==> s[first_index(s, c)] == c,
        forall|j: int| 0 <= j < first_index(s, c) ==> s[j] != c,
    decreases s.len(),
{
    if s.len() > 0 && s[0] != c {
        lemma_first_index(s.drop_first(), c);
        assert forall|j: int| 0 <= j < first_index(s, c) implies s[j] != c by {
            if j > 0 {
                assert(s[j] == s.drop_first()[j - 1]);
            }
        }
    }
}

/// The first index is the only position with the properties of one.
pub proof fn lemma_first_index_is(s: Seq<char>, c: char, i: int)
    requires
        0 <= i <= s.len(),
        i < s.len() ==> s[i] == c,
        forall|j: int| 0 <= j < i ==> s[j] != c,
    ensures
        first_index(s, c) == i,
{
    lemma_first_index(s, c);
}

pub proof fn lemma_last_index(s: Seq<char>, c: char)
    ensures
        -1 <= last_index(s, c) < s.len(),
        last_index(s, c) >= 0 ==> s[last_index(s, c)] == c,
        forall|j: int| last_index(s, c) < j < s.len() ==> s[j] != c,
    decreases s.len(),
{
    if s.len() > 0 && s.last() != c {
        lemma_last_index(s.drop_last(), c);
        assert forall|j: int| last_index(s, c) < j < s.len() implies s[j] != c by {
            if j < s.len() - 1 {
                assert(s[j] == s.drop_last()[j]);
            }
        }
    }
}

pub proof fn lemma_last_index_is(s: Seq<char>, c: char, i: int)
    requires
        -1 <= i < s.len(),
        i >= 0 ==> s[i] == c,
        forall|j: int| i < j < s.len() ==> s[j] != c,
    ensures
        last_index(s, c) == i,
{
    lemma_last_index(s, c);
}

/// The first line feed of a text ends its first line.
pub proof fn lemma_lines_front(head: Seq<char>, rest: Seq<char>)
    requires
        !head.contains('\n'),
    ensures
        lines(head + seq!['\n'] + rest) == seq![strip_cr(head)] + lines(rest),
{
    let s = head + seq!['\n'] + rest;
    lemma_first_index_is(s, '\n', head.len() as int);
    assert(s.take(head.len() as int) == head);
    assert(s.skip(head.len() as int + 1) == rest);
}

/// A text of terminated lines can be taken apart from the front too.
proof fn lemma_terminated_front(ls: Seq<Seq<char>>)
    requires
        ls.len() > 0,
    ensures
        terminated(ls) == ls[0] + seq!['\n'] + terminated(ls.drop_first()),
    decreases ls.len(),
{
    if ls.len() == 1 {
        assert(ls.drop_last() =~= Seq::<Seq<char>>::empty());
        assert(ls.drop_first() =~= Seq::<Seq<char>>::empty());
        assert(terminated(ls) =~= ls[0] + seq!['\n'] + terminated(ls.drop_first()));
    } else {
        lemma_terminated_front(ls.drop_last());
        assert(ls.drop_last().drop_first() =~= ls.drop_first().drop_last());
        assert(terminated(ls) =~= ls[0] + seq!['\n'] + terminated(ls.drop_first()));
    }
}

/// Joined pieces can be taken apart from the front too.
pub proof fn lemma_join_front(parts: Seq<Seq<char>>, sep: Seq<char>)
    requires
        parts.len() > 1,
    ensures
        join(parts, sep) == parts[0] + sep + join(parts.drop_first(), sep),
    decreases parts.len(),
{
    if parts.len() == 2 {
        assert(join(parts.drop_last(), sep) == parts[0]);
        assert(join(parts.drop_first(), sep) == parts[1]);
    } else {
        lemma_join_front(parts.drop_last(), sep);
        assert(parts.drop_last().drop_first() =~= parts.drop_first().drop_last());
        assert(join(parts, sep) =~= parts[0] + sep + join(parts.drop_first(), sep));
    }
}

/// Splitting joined pieces at their separator gives them back, when none of
/// them holds it.
pub proof fn lemma_split_of_join(parts: Seq<Seq<char>>, c: char)
    requires
        parts.len() > 0,
        forall|i: int| 0 <= i < parts.len() ==> !(#[trigger] parts[i]).contains(c),
    ensures
        split(join(parts, seq![c]), c) == parts,
    decreases parts.len(),
{
    let whole = join(parts, seq![c]);
    assert(!parts[0].contains(c));
    if parts.len() == 1 {
        lemma_first_index_is(whole, c, whole.len() as int);
        assert(split(whole, c) =~= parts);
    } else {
        let rest = join(parts.drop_first(), seq![c]);
        lemma_join_front(parts, seq![c]);
        lemma_cut_at(parts[0], c, rest);
        assert forall|i: int| 0 <= i < parts.drop_first().len() implies !(
        #[trigger] parts.drop_first()[i]).contains(c) by {
            assert(!parts[i + 1].contains(c));
        }
        lemma_split_of_join(parts.drop_first(), c);
        assert(split(whole, c) =~= parts);
    }
}

/// The first `c` is the one behind a text without it.
pub proof fn lemma_cut_at(head: Seq<char>, c: char, rest: Seq<char>)
    requires
        !head.contains(c),
    ensures
        split_once(head + seq![c] + rest, c) == Some((head, rest)),
{
    let s = head + seq![c] + rest;
    lemma_first_index_is(s, c, head.len() as int);
    assert(s.take(head.len() as int) == head);
    assert(s.skip(head.len() as int + 1) == rest);
}

/// What stands before the first `c` does not hold it, and with it and what
/// follows makes up the text.
pub proof fn lemma_cut_parts(s: Seq<char>, c: char)
    ensures
        match split_once(s, c) {
            Some((head, rest)) => !head.contains(c) && s == head + seq![c] + rest,
            None => !s.contains(c),
        },
{
    lemma_first_index(s, c);
    let i = first_index(s, c);
    if i < s.len() {
        assert(s == s.take(i) + seq![c] + s.skip(i + 1));
    }
}

/// No piece holds the separator, and every character of a piece is one of
/// the text.
pub proof fn lemma_split_pieces(s: Seq<char>, c: char)
    ensures
        forall|i: int| 0 <= i < split(s, c).len() ==> !(#[trigger] split(s, c)[i]).contains(c),
        forall|i: int, d: char|
            0 <= i < split(s, c).len() && (#[trigger] split(s, c)[i]).contains(d)
                ==> #[trigger] s.contains(d),
    decreases s.len(),
{
    lemma_first_index(s, c);
    lemma_cut_parts(s, c);
    match split_once(s, c) {
        None => {},
        Some((head, rest)) => {
            lemma_split_pieces(rest, c);
            let all = split(s, c);
            assert forall|i: int| 0 <= i < all.len() implies !(#[trigger] all[i]).contains(c) by {
                if i > 0 {
                    assert(all[i] == split(rest, c)[i - 1]);
                }
            }
            assert forall|i: int, d: char|
                0 <= i < all.len() && (#[trigger] all[i]).contains(d) implies #[trigger] s.contains(
                d,
            ) by {
                if i == 0 {
                    let k = choose|k: int| 0 <= k < head.len() && head[k] == d;
                    assert(s[k] == d);
                } else {
                    assert(all[i] == split(rest, c)[i - 1]);
                    assert(rest.contains(d));
                    let k = choose|k: int| 0 <= k < rest.len() && rest[k] == d;
                    assert(s[head.len() + 1 + k] == d);
                }
            }
        },
    }
}

/// No line holds a line feed.
pub proof fn lemma_lines_whole(s: Seq<char>)
    ensures
        forall|i: int| 0 <= i < lines(s).len() ==> !(#[trigger] lines(s)[i]).contains('\n'),
    decreases s.len(),
{
    if s.len() > 0 {
        lemma_first_index(s, '\n');
        lemma_cut_parts(s, '\n');
        match split_once(s, '\n') {
            None => {},
            Some((head, rest)) => {
                lemma_lines_whole(rest);
                assert forall|i: int| 0 <= i < lines(s).len() implies !(
                #[trigger] lines(s)[i]).contains('\n') by {
                    if i > 0 {
                        assert(lines(s)[i] == lines(rest)[i - 1]);
                    } else {
                        assert(lines(s)[0] == strip_cr(head));
                        if strip_cr(head).contains('\n') {
                            let k = choose|k: int|
                                0 <= k < strip_cr(head).len() && strip_cr(head)[k] == '\n';
                            assert(head[k] == '\n');
                        }
                    }
                }
            },
        }
    }
}

/// Reading terminated lines that hold no line feed themselves gives them
/// back without a carriage return at their end.
pub proof fn lemma_lines_of_terminated_cr(ls: Seq<Seq<char>>)
    requires
        forall|i: int| 0 <= i < ls.len() ==> !(#[trigger] ls[i]).contains('\n'),
    ensures
        lines(terminated(ls)) == ls.map_values(|l: Seq<char>| strip_cr(l)),
    decreases ls.len(),
{
    if ls.len() == 0 {
        assert(lines(terminated(ls)) =~= ls.map_values(|l: Seq<char>| strip_cr(l)));
    } else {
        lemma_terminated_front(ls);
        lemma_lines_front(ls[0], terminated(ls.drop_first()));
        assert forall|i: int| 0 <= i < ls.drop_first().len() implies !(
        #[trigger] ls.drop_first()[i]).contains('\n') by {
            assert(!ls[i + 1].contains('\n'));
        }
        lemma_lines_of_terminated_cr(ls.drop_first());
        assert(lines(terminated(ls)) =~= ls.map_values(|l: Seq<char>| strip_cr(l)));
    }
}

/// Reading terminated lines gives them back: each is a line, and there are
/// no others.
pub proof fn lemma_lines_of_terminated(ls: Seq<Seq<char>>)
    requires
        forall|i: int| 0 <= i < ls.len() ==> is_line(#[trigger] ls[i]),
    ensures
        lines(terminated(ls)) == ls,
{
    assert forall|i: int| 0 <= i < ls.len() implies !(#[trigger] ls[i]).contains('\n') by {
        assert(is_line(ls[i]));
    }
    lemma_lines_of_terminated_cr(ls);
    assert(ls.map_values(|l: Seq<char>| strip_cr(l)) =~= ls) by {
        assert forall|i: int| 0 <= i < ls.len() implies strip_cr(#[trigger] ls[i]) == ls[i] by {
            assert(is_line(ls[i]));
        }
    }
}

/// The characters of a string.
pub fn chars_of(s: &str) -> (r: Vec<char>)
    ensures
        r@ == s@,
{
    let mut out: Vec<char> = Vec::new();
    for c in it: s.chars()
        invariant
            out@ == it.seq().take(it.index() as int),
            it.seq() == s@,
    {
        out.push(c);
    }
    out
}

/// The string made of the characters `from..to`.
pub fn collect(cs: &Vec<char>, from: usize, to: usize) -> (r: String)
    requires
        from <= to <= cs.len(),
    ensures
        r@ == cs@.subrange(from as int, to as int),
{
    let mut out = String::new();
    for i in from..to
        invariant
            to <= cs.len(),
            from <= i <= to,
            out@ == cs@.subrange(from as int, i as int),
    {
        out.push(cs[i]);
        assert(cs@.subrange(from as int, i + 1) == cs@.subrange(from as int, i as int).push(
            cs@[i as int],
        ));
    }
    out
}

/// Whether two strings are the same text.
pub fn same(a: &str, b: &str) -> (r: bool)
    ensures
        r == (a@ == b@),
{
    a.to_owned() == b.to_owned()
}

/// The first position at or after `from` that holds `c`, or the length.
pub fn find_from(cs: &Vec<char>, from: usize, c: char) -> (r: usize)
    requires
        from <= cs.len(),
    ensures
        from <= r <= cs.len(),
        r == from + first_index(cs@.skip(from as int), c),
{
    let mut i = from;
    while i < cs.len() && cs[i] != c
        invariant
            from <= i <= cs.len(),
            forall|j: int| from <= j < i ==> cs@[j] != c,
        decreases cs.len() - i,
    {
        i = i + 1;
    }
    proof {
        lemma_first_index_is(cs@.skip(from as int), c, i - from);
    }
    i
}

/// What stands before and after the first `c`, as `str::split_once`.
pub fn cut_first(s: &str, c: char) -> (r: Option<(String, String)>)
    ensures
        match split_once(s@, c) {
            Some((head, tail)) => r matches Some((h, t)) && h@ == head && t@ == tail,
            None => r is None,
        },
{
    let cs = chars_of(s);
    let i = find_from(&cs, 0, c);
    assert(cs@.skip(0) == s@);
    if i < cs.len() {
        Some((collect(&cs, 0, i), collect(&cs, i + 1, cs.len())))
    } else {
        None
    }
}

/// What stands before and after the last `c`, as `str::rsplit_once`.
pub fn cut_last(s: &str, c: char) -> (r: Option<(String, String)>)
    ensures
        match rsplit_once(s@, c) {
            Some((head, tail)) => r matches Some((h, t)) && h@ == head && t@ == tail,
            None => r is None,
        },
{
    let cs = chars_of(s);
    let mut i: usize = cs.len();
    while i > 0 && cs[i - 1] != c
        invariant
            0 <= i <= cs.len(),
            forall|j: int| i <= j < cs.len() ==> cs@[j] != c,
        decreases i,
    {
        i = i - 1;
    }
    proof {
        lemma_last_index_is(s@, c, i - 1);
    }
    if i > 0 {
        Some((collect(&cs, 0, i - 1), collect(&cs, i, cs.len())))
    } else {
        None
    }
}

/// The pieces between occurrences of `c`, as `str::split`.
pub fn pieces(s: &str, c: char) -> (r: Vec<String>)
    ensures
        texts(r@) == split(s@, c),
{
    let cs = chars_of(s);
    let mut out: Vec<String> = Vec::new();
    let mut from: usize = 0;
    assert(cs@.skip(0) == s@);
    assert(texts(out@) + split(cs@.skip(0), c) == split(s@, c));
    loop
        invariant
            cs@ == s@,
            from <= cs.len(),
            texts(out@) + split(cs@.skip(from as int), c) == split(s@, c),
        decreases cs.len() - from,
    {
        let i = find_from(&cs, from, c);
        let ghost rest = cs@.skip(from as int);
        let piece = collect(&cs, from, i);
        assert(piece@ == rest.take(i - from));
        let ghost before = out@;
        out.push(piece);
        assert(texts(out@) == texts(before).push(piece@));
        if i == cs.len() {
            assert(rest.take(i - from) == rest);
            assert(split(rest, c) == seq![rest]);
            assert(texts(out@) == texts(before) + seq![rest]);
            return out;
        }
        proof {
            assert(rest.skip(i - from + 1) == cs@.skip(i + 1));
            assert(split(rest, c) == seq![piece@] + split(cs@.skip(i + 1), c));
            assert(texts(before) + (seq![piece@] + split(cs@.skip(i + 1), c)) == texts(out@)
                + split(cs@.skip(i + 1), c));
        }
        from = i + 1;
    }
}

/// The lines of a text, as `str::lines`.
pub fn line_list(s: &str) -> (r: Vec<String>)
    ensures
        texts(r@) == lines(s@),
{
    let cs = chars_of(s);
    let mut out: Vec<String> = Vec::new();
    let mut from: usize = 0;
    assert(cs@.skip(0) == s@);
    assert(texts(out@) + lines(cs@.skip(0)) == lines(s@));
    while from < cs.len()
        invariant
            cs@ == s@,
            from <= cs.len(),
            texts(out@) + lines(cs@.skip(from as int)) == lines(s@),
        decreases cs.len() - from,
    {
        let i = find_from(&cs, from, '\n');
        let ghost rest = cs@.skip(from as int);
        let ghost before = out@;
        if i == cs.len() {
            let line = collect(&cs, from, i);
            assert(line@ == rest);
            out.push(line);
            assert(lines(rest) == seq![rest]);
            assert(texts(out@) == texts(before) + seq![rest]);
            return out;
        }
        let end: usize = if i > from && cs[i - 1] == '\r' { i - 1 } else { i };
        let line = collect(&cs, from, end);
        assert(line@ == strip_cr(rest.take(i - from)));
        out.push(line);
        proof {
            assert(texts(out@) == texts(before).push(line@));
            assert(rest.skip(i - from + 1) == cs@.skip(i + 1));
            assert(lines(rest) == seq![line@] + lines(cs@.skip(i + 1)));
            assert(texts(before) + (seq![line@] + lines(cs@.skip(i + 1))) == texts(out@) + lines(
                cs@.skip(i + 1),
            ));
        }
        from = i + 1;
    }
    assert(texts(out@) + lines(cs@.skip(from as int)) == texts(out@));
    out
}

/// The pieces with `sep` between each two, as `[String]::join`.
pub fn joined(parts: &Vec<String>, sep: &str) -> (r: String)
    ensures
        r@ == join(texts(parts@), sep@),
{
    let mut out = String::new();
    for i in 0..parts.len()
        invariant
            out@ == join(texts(parts@).take(i as int), sep@),
    {
        proof {
            assert(texts(parts@).take(i + 1).drop_last() == texts(parts@).take(i as int));
        }
        if i > 0 {
            out.append(sep);
        }
        out.append(&parts[i]);
    }
    assert(texts(parts@).take(parts.len() as int) == texts(parts@));
    out
}

/// The text with every `from` replaced by `to`, as `str::replace`.
pub fn replaced(s: &str, from: char, to: char) -> (r: String)
    ensures
        r@ == replace(s@, from, to),
{
    let mut out = String::new();
    for c in it: s.chars()
        invariant
            out@ == replace(s@.take(it.index() as int), from, to),
            it.seq() == s@,
    {
        proof {
            let i = it.index() as int;
            assert(s@.take(i + 1) == s@.take(i).push(c));
        }
        out.push(
            if c == from {
                to
            } else {
                c
            },
        );
        assert(out@ == replace(s@.take(it.index() as int).push(c), from, to));
    }
    assert(s@.take(s@.len() as int) == s@);
    out
}

/// Whether `t` stands in `cs` at position `i`.
fn matches_at(cs: &Vec<char>, t: &Vec<char>, i: usize) -> (r: bool)
    requires
        i <= cs.len(),
    ensures
        r == occurs_at(cs@, t@, i as int),
{
    if t.len() > cs.len() - i {
        return false;
    }
    for j in 0..t.len()
        invariant
            i + t.len() <= cs.len(),
            forall|k: int| 0 <= k < j ==> cs@[i + k] == t@[k],
    {
        if cs[i + j] != t[j] {
            assert(cs@.subrange(i as int, i + t.len())[j as int] != t@[j as int]);
            return false;
        }
    }
    assert(cs@.subrange(i as int, i + t.len()) == t@);
    true
}

/// Whether `t` occurs in `s`, as `str::contains`.
pub fn contains_text(s: &str, t: &str) -> (r: bool)
    ensures
        r == occurs(s@, t@),
{
    let cs = chars_of(s);
    let ts = chars_of(t);
    let mut i: usize = 0;
    loop
        invariant
            cs@ == s@,
            ts@ == t@,
            i <= cs.len(),
            forall|j: int| 0 <= j < i ==> !occurs_at(s@, t@, j),
        decreases cs.len() - i,
    {
        if matches_at(&cs, &ts, i) {
            return true;
        }
        if i == cs.len() {
            return false;
        }
        i = i + 1;
    }
}

/// Whether `c` occurs in `s`, as `str::contains`.
pub fn contains_char(s: &str, c: char) -> (r: bool)
    ensures
        r == s@.contains(c),
{
    for d in it: s.chars()
        invariant
            it.seq() == s@,
            forall|j: int| 0 <= j < it.index() ==> s@[j] != c,
    {
        if d == c {
            assert(s@[it.index() as int] == c);
            return true;
        }
    }
    false
}

/// Whether `s` ends with `t`, as `str::ends_with`.
pub fn has_suffix(s: &str, t: &str) -> (r: bool)
    ensures
        r == t@.is_suffix_of(s@),
{
    let cs = chars_of(s);
    let ts = chars_of(t);
    if ts.len() > cs.len() {
        return false;
    }
    matches_at(&cs, &ts, cs.len() - ts.len())
}

/// The text after the character `c` that it starts with, as
/// `str::strip_prefix`.
pub fn without_first(s: &str, c: char) -> (r: Option<String>)
    ensures
        match r {
            Some(t) => s@.len() > 0 && s@[0] == c && t@ == s@.skip(1),
            None => s@.len() == 0 || s@[0] != c,
        },
{
    let cs = chars_of(s);
    if cs.len() > 0 && cs[0] == c {
        Some(collect(&cs, 1, cs.len()))
    } else {
        None
    }
}

/// Whether a character is white space, as `char::is_whitespace`.
pub fn white(c: char) -> (r: bool)
    ensures
        r == is_white(c),
{
    let u: u32 = c as u32;
    (0x9 <= u && u <= 0xd) || u == 0x20 || u == 0x85 || u == 0xa0 || u == 0x1680 || (0x2000 <= u
        && u <= 0x200a) || u == 0x2028 || u == 0x2029 || u == 0x202f || u == 0x205f || u == 0x3000
}

/// The first position at or after `from` that holds no white space.
fn skip_white(cs: &Vec<char>, from: usize) -> (r: usize)
    requires
        from <= cs.len(),
    ensures
        from <= r <= cs.len(),
        cs@.skip(r as int) == trim_start(cs@.skip(from as int)),
{
    let mut i: usize = from;
    while i < cs.len() && white(cs[i])
        invariant
            from <= i <= cs.len(),
            trim_start(cs@.skip(i as int)) == trim_start(cs@.skip(from as int)),
        decreases cs.len() - i,
    {
        assert(cs@.skip(i as int).drop_first() == cs@.skip(i + 1));
        i = i + 1;
    }
    i
}

/// The text without the white space around it, as `str::trim`.
pub fn trimmed(s: &str) -> (r: String)
    ensures
        r@ == trim(s@),
{
    let cs = chars_of(s);
    let from = skip_white(&cs, 0);
    assert(cs@.skip(0) == s@);
    let mut to: usize = cs.len();
    assert(cs@.subrange(from as int, to as int) == cs@.skip(from as int));
    while to > from && white(cs[to - 1])
        invariant
            from <= to <= cs.len(),
            trim_end(cs@.subrange(from as int, to as int)) == trim(s@),
        decreases to,
    {
        assert(cs@.subrange(from as int, to as int).drop_last() == cs@.subrange(
            from as int,
            to - 1,
        ));
        to = to - 1;
    }
    collect(&cs, from, to)
}

/// The first word of a text and what follows it.
pub fn cut_word(s: &str) -> (r: (String, String))
    ensures
        (r.0@, r.1@) == next_word(s@),
{
    let cs = chars_of(s);
    let from = skip_white(&cs, 0);
    assert(cs@.skip(0) == s@);
    let ghost t = trim_start(s@);
    let mut i: usize = from;
    assert(t.skip(0) == t);
    while i < cs.len() && !white(cs[i])
        invariant
            from <= i <= cs.len(),
            t == cs@.skip(from as int),
            word_end(t) == (i - from) + word_end(t.skip(i - from)),
        decreases cs.len() - i,
    {
        assert(t.skip(i - from).drop_first() == t.skip(i - from + 1));
        i = i + 1;
    }
    assert(word_end(t) == i - from);
    assert(t.take(i - from) == cs@.subrange(from as int, i as int));
    assert(t.skip(i - from) == cs@.subrange(i as int, cs.len() as int));
    (collect(&cs, from, i), collect(&cs, i, cs.len()))
}

} // verus!
