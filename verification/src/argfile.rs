//! Response files: arguments kept in a file, one to a line.
//!
//! An argument `@path` stands for the lines of that file, which can hold such
//! arguments themselves. Reading the files is left to the caller: an
//! [`Expansion`] says which file it needs next and is handed its contents.

use vstd::prelude::*;
use crate::link_paths::str_view;
use crate::os_text::{words, OsText, Word};
use crate::text::{join, joined, line_list, lines, texts, without_first};

verus! {

/// The path of the file that an argument stands for.
pub open spec fn argfile_path(arg: Word) -> Option<Seq<char>> {
    match arg.text() {
        Some(s) => if s.len() > 0 && s[0] == '@' {
            Some(s.drop_first())
        } else {
            None
        },
        None => None,
    }
}

/// The arguments that the contents of a file hold.
pub open spec fn file_args(contents: Seq<char>) -> Seq<Word> {
    lines(contents).map_values(|l: Seq<char>| Word::Text(l))
}

/// The arguments with every file they stand for put in its place, files
/// within files down to `depth`; `None` where that does not reach the last
/// of them. A file that is not there leaves its argument as it is.
pub open spec fn expanded(
    args: Seq<Word>,
    files: Map<Seq<char>, Seq<char>>,
    depth: nat,
) -> Option<Seq<Word>>
    decreases depth, args.len(),
{
    if args.len() == 0 {
        Some(seq![])
    } else {
        let first = match argfile_path(args[0]) {
            Some(path) => if !files.dom().contains(path) {
                Some(seq![args[0]])
            } else if depth == 0 {
                None
            } else {
                expanded(file_args(files[path]), files, (depth - 1) as nat)
            },
            None => Some(seq![args[0]]),
        };
        match (first, expanded(args.drop_first(), files, depth)) {
            (Some(a), Some(b)) => Some(a + b),
            _ => None,
        }
    }
}

/// How many arguments stand before the first that stands for a file.
pub open spec fn plain_count(args: Seq<Word>) -> nat
    decreases args.len(),
{
    if args.len() == 0 || argfile_path(args[0]) is Some {
        0
    } else {
        1 + plain_count(args.drop_first())
    }
}

/// Arguments on the way to being expanded.
pub struct Expansion {
    /// Those still to be looked at, the next one last.
    stack: Vec<OsText>,
    /// Those that are done.
    out: Vec<OsText>,
}

impl Expansion {
    /// The arguments still to be looked at, in their order.
    pub closed spec fn pending(self) -> Seq<Word> {
        words(self.stack@).reverse()
    }

    /// The arguments that are done.
    pub closed spec fn done(self) -> Seq<Word> {
        words(self.out@)
    }

    /// Starts to expand arguments.
    pub fn new(args: &Vec<OsText>) -> (r: Self)
        ensures
            r.pending() == words(args@),
            r.done() == Seq::<Word>::empty(),
    {
        let mut stack: Vec<OsText> = Vec::new();
        let mut i: usize = args.len();
        let ghost all = words(args@);
        while i > 0
            invariant
                i <= args.len(),
                all == words(args@),
                words(stack@).reverse() == all.skip(i as int),
            decreases i,
        {
            i = i - 1;
            let ghost before = stack@;
            let copy = args[i].copy();
            stack.push(copy);
            proof {
                assert(words(stack@) =~= words(before).push(copy@));
                assert(all[i as int] == copy@);
                assert(words(stack@).reverse() =~= seq![copy@] + words(before).reverse());
                assert(words(stack@).reverse() =~= all.skip(i as int));
            }
        }
        assert(all.skip(0) =~= all);
        let out: Vec<OsText> = Vec::new();
        assert(words(out@) =~= Seq::<Word>::empty());
        Expansion { stack, out }
    }

    /// Passes over the arguments that stand for themselves, up to the first
    /// that stands for a file. The path of that file, or `None` when all is
    /// done.
    pub fn next_file(&mut self) -> (r: Option<String>)
        ensures
            ({
                let n = plain_count(old(self).pending());
                &&& final(self).done() == old(self).done() + old(self).pending().take(n as int)
                &&& final(self).pending() == old(self).pending().skip(n as int)
                &&& match r {
                    Some(path) => final(self).pending().len() > 0 && argfile_path(
                        final(self).pending()[0],
                    ) == Some(path@),
                    None => final(self).pending().len() == 0,
                }
            }),
    {
        let ghost start = self.pending();
        let ghost known = self.done();
        let ghost n = plain_count(start);
        let ghost mut k: int = 0;
        assert(start.skip(0) =~= start);
        assert(known + start.take(0) =~= known);
        while self.stack.len() > 0
            invariant
                0 <= k <= start.len(),
                self.pending() == start.skip(k),
                self.done() == known + start.take(k),
                n == plain_count(start),
                n == k + plain_count(start.skip(k)),
                start == old(self).pending(),
                known == old(self).done(),
            decreases self.stack@.len(),
        {
            let top: usize = self.stack.len() - 1;
            assert(self.pending()[0] == self.stack@[top as int]@);
            let mut path: Option<String> = None;
            match self.stack[top].text() {
                Some(text) => {
                    path = without_first(text, '@');
                },
                None => {},
            }
            if path.is_some() {
                return path;
            }
            let ghost stack = self.stack@;
            let ghost out = self.out@;
            match self.stack.pop() {
                Some(arg) => {
                    self.out.push(arg);
                    proof {
                        assert(words(self.out@) =~= words(out).push(arg@));
                        assert(self.stack@ =~= stack.drop_last());
                        assert(words(self.stack@).reverse() =~= words(stack).reverse().drop_first());
                        assert(start.skip(k).drop_first() =~= start.skip(k + 1));
                        assert(start.take(k + 1) =~= start.take(k).push(arg@));
                        k = k + 1;
                        assert(self.done() =~= known + start.take(k));
                    }
                },
                None => {},
            }
        }
        None
    }

    /// Puts the lines of a file in the place of the next argument, which
    /// stands for it. `None` where the file could not be read: the argument
    /// is done as it is.
    pub fn supply(&mut self, contents: Option<&str>)
        requires
            old(self).pending().len() > 0,
        ensures
            match str_view(contents) {
                Some(text) => final(self).done() == old(self).done() && final(self).pending()
                    == file_args(text) + old(self).pending().drop_first(),
                None => final(self).done() == old(self).done().push(old(self).pending()[0])
                    && final(self).pending() == old(self).pending().drop_first(),
            },
    {
        let ghost start = self.pending();
        let ghost known = self.done();
        let ghost stack = self.stack@;
        let ghost out = self.out@;
        match self.stack.pop() {
            Some(arg) => {
                proof {
                    assert(self.stack@ =~= stack.drop_last());
                    assert(start[0] == arg@);
                    assert(words(self.stack@).reverse() =~= start.drop_first());
                }
                match contents {
                    None => {
                        self.out.push(arg);
                        assert(words(self.out@) =~= words(out).push(arg@));
                    },
                    Some(text) => {
                        let found = line_list(text);
                        let ghost all = file_args(text@);
                        let mut i: usize = found.len();
                        assert(self.pending() =~= all.skip(i as int) + start.drop_first());
                        while i > 0
                            invariant
                                i <= found.len(),
                                all == file_args(text@),
                                texts(found@) == lines(text@),
                                self.done() == known,
                                self.pending() == all.skip(i as int) + start.drop_first(),
                            decreases i,
                        {
                            i = i - 1;
                            let ghost before = self.stack@;
                            let line = OsText::Text(found[i].clone());
                            self.stack.push(line);
                            proof {
                                assert(words(self.stack@) =~= words(before).push(line@));
                                assert(texts(found@)[i as int] == found@[i as int]@);
                                assert(all[i as int] == line@);
                                assert(words(self.stack@).reverse() =~= seq![line@] + words(
                                    before,
                                ).reverse());
                                assert(self.pending() =~= all.skip(i as int) + start.drop_first());
                            }
                        }
                        assert(all.skip(0) =~= all);
                    },
                }
            },
            None => {},
        }
    }

    /// The arguments that are done.
    pub fn finish(self) -> (r: Vec<OsText>)
        ensures
            words(r@) == self.done(),
    {
        self.out
    }
}

/// The texts that arguments are shown as.
pub open spec fn shown_args(args: Seq<Word>) -> Seq<Seq<char>> {
    args.map_values(|a: Word| a.lossy())
}

/// The contents of the response file for arguments.
pub fn argfile_contents(args: &Vec<OsText>) -> (r: String)
    ensures
        r@ == join(shown_args(words(args@)), "\n"@),
{
    let mut shown: Vec<String> = Vec::new();
    let ghost all = shown_args(words(args@));
    assert(texts(shown@) =~= all.take(0));
    for i in 0..args.len()
        invariant
            all == shown_args(words(args@)),
            texts(shown@) == all.take(i as int),
    {
        let ghost before = shown@;
        let text = args[i].lossy();
        shown.push(text);
        proof {
            assert(texts(shown@) =~= texts(before).push(text@));
            assert(words(args@)[i as int] == args@[i as int]@);
            assert(all.take(i + 1) =~= all.take(i as int).push(text@));
        }
    }
    assert(all.take(all.len() as int) =~= all);
    joined(&shown, "\n")
}

} // verus!
