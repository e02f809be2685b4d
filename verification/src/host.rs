//! File paths as the host reads them, and bytes as text.
//!
//! How a path is taken apart depends on the host: `\` and a drive letter
//! mean something on Windows and nothing on Unix. What each of the two makes
//! of a path is a specification here, with a parameter that tells which one
//! it is. Each executable function calls one function of `std` and states
//! that its result is that of one of the two. Paths are text.

use vstd::prelude::*;
use crate::text::{first_index, last_index};

verus! {

/// Characters that end a directory or a drive on some host.
pub open spec fn is_mark(c: char) -> bool {
    c == '/' || c == '\\' || c == ':'
}

/// A text without any such character: a bare file name on every host.
pub open spec fn plain(s: Seq<char>) -> bool {
    forall|i: int| 0 <= i < s.len() ==> !is_mark(s[i])
}

/// How many characters `s` has up to its last mark, that one counted.
pub open spec fn mark_end(s: Seq<char>) -> int
    decreases s.len(),
{
    if s.len() == 0 || is_mark(s.last()) {
        s.len() as int
    } else {
        mark_end(s.drop_last())
    }
}

/// What follows the last mark.
pub open spec fn tail(s: Seq<char>) -> Seq<char> {
    s.skip(mark_end(s))
}

/// A tail that can name a file.
pub open spec fn named(s: Seq<char>) -> bool {
    tail(s).len() > 0 && tail(s) != seq!['.'] && tail(s) != seq!['.', '.']
}

/// What separates components on Windows.
pub open spec fn is_slash(c: char) -> bool {
    c == '/' || c == '\\'
}

/// What separates components on a host.
pub open spec fn separates(unix: bool, c: char) -> bool {
    c == '/' || !unix && c == '\\'
}

/// The letters of the alphabet, which name drives.
pub open spec fn is_letter(c: char) -> bool {
    'a' <= c <= 'z' || 'A' <= c <= 'Z'
}

/// A path that starts like one with a drive.
pub open spec fn has_colon(path: Seq<char>) -> bool {
    path.len() >= 2 && path[1] == ':' && !is_slash(path[0])
}

/// A path that starts like a share or a device of Windows.
pub open spec fn shared(path: Seq<char>) -> bool {
    path.len() >= 2 && is_slash(path[0]) && is_slash(path[1])
}

/// A path in which Windows takes components as they are.
pub open spec fn verbatim(path: Seq<char>) -> bool {
    shared(path) && path.len() > 2 && path[2] == '?'
}

/// How long the server's name is in a path that starts with `\\\\server`.
pub open spec fn server_len(path: Seq<char>) -> int {
    first_index(path.skip(2), '\\')
}

/// A path on a share: it starts with `\\\\server\\share`.
pub open spec fn on_share(path: Seq<char>) -> bool {
    let n = server_len(path);
    &&& path.len() > n + 3
    &&& path[0] == '\\' && path[1] == '\\'
    &&& n > 0 && path[2] != '?' && path[2] != '.'
    &&& forall|i: int| 2 <= i < n + 2 ==> path[i] != '/'
    &&& !is_slash(path[n + 3])
}

/// Whether it is stated how a host reads a path. Of Windows it is not for
/// devices and other paths that start with two separators without naming a
/// share, nor for drives that are no letter.
pub open spec fn readable(unix: bool, path: Seq<char>) -> bool {
    unix || (!shared(path) || on_share(path)) && (has_colon(path) ==> is_letter(path[0]))
}

/// A path without a root, a drive or a share, on every host.
pub open spec fn relative(path: Seq<char>) -> bool {
    (path.len() == 0 || !is_slash(path[0])) && !has_colon(path)
}

/// Whether a path is absolute. On Unix it is when it starts with the root, on
/// Windows when it starts with a drive and then the root, or names a share.
pub open spec fn absolute_of(unix: bool, path: Seq<char>) -> bool {
    if unix {
        path.len() > 0 && path[0] == '/'
    } else {
        on_share(path) || has_colon(path) && path.len() > 2 && is_slash(path[2])
    }
}

/// An answer to whether a path is absolute that a host can give.
pub open spec fn absolute_on(unix: bool, path: Seq<char>, r: bool) -> bool {
    readable(unix, path) ==> r == absolute_of(unix, path)
}

/// An answer to whether a path is absolute that one of the hosts gives.
pub open spec fn absolute_fact(path: Seq<char>, r: bool) -> bool {
    absolute_on(true, path, r) || absolute_on(false, path, r)
}

/// The path of a name in a directory. A name that is absolute or has a drive
/// replaces the directory. On Windows a rooted name replaces all but its
/// drive. Any other name goes behind the directory, with the host's own
/// separator between them where the directory does not end in one and is not
/// a bare drive.
pub open spec fn joined_of(unix: bool, dir: Seq<char>, name: Seq<char>) -> Seq<char> {
    if unix {
        if name.len() > 0 && name[0] == '/' {
            name
        } else if dir.len() == 0 || dir.last() == '/' {
            dir + name
        } else {
            dir + seq!['/'] + name
        }
    } else if on_share(name) || has_colon(name) {
        name
    } else if name.len() > 0 && is_slash(name[0]) {
        if has_colon(dir) {
            dir.take(2) + name
        } else {
            name
        }
    } else if dir.len() == 0 || is_slash(dir.last()) || has_colon(dir) && dir.len() == 2 {
        dir + name
    } else {
        dir + seq!['\\'] + name
    }
}

/// Whether it is stated what a host joins a directory and a name to. Of
/// Windows it is not where the directory is verbatim, where a rooted name
/// goes behind a share or a device, and where either has a drive that is no
/// letter.
pub open spec fn joinable(unix: bool, dir: Seq<char>, name: Seq<char>) -> bool {
    ||| unix
    ||| on_share(name)
    ||| has_colon(name) && is_letter(name[0])
    ||| {
        &&& !verbatim(dir)
        &&& has_colon(dir) ==> is_letter(dir[0])
        &&& !has_colon(name)
        &&& name.len() > 0 && is_slash(name[0]) ==> !shared(dir) && (shared(name)
            ==> !has_colon(dir))
    }
}

/// A path that a host can join a directory and a name to. The name stays at
/// its end, but for what is more than a plain name behind a verbatim
/// directory.
pub open spec fn join_on(unix: bool, dir: Seq<char>, name: Seq<char>, r: Seq<char>) -> bool {
    &&& joinable(unix, dir, name) ==> r == joined_of(unix, dir, name)
    &&& !verbatim(dir) || plain(name) && name != seq!['.'] && name != seq!['.', '.']
        ==> name.is_suffix_of(r)
}

/// A path that one of the hosts joins a directory and a name to.
pub open spec fn join_fact(dir: Seq<char>, name: Seq<char>, r: Seq<char>) -> bool {
    join_on(true, dir, name, r) || join_on(false, dir, name, r)
}

/// Where the last component of a path starts: behind the last separator, or
/// behind the drive.
pub open spec fn name_start(unix: bool, path: Seq<char>) -> int
    decreases path.len(),
{
    if path.len() == 0 || separates(unix, path.last()) || !unix && path.len() == 2 && has_colon(
        path,
    ) {
        path.len() as int
    } else {
        name_start(unix, path.drop_last())
    }
}

/// What stands behind the last separator of a path.
pub open spec fn last_part(unix: bool, path: Seq<char>) -> Seq<char> {
    path.skip(name_start(unix, path))
}

/// What stands before it.
pub open spec fn front_part(unix: bool, path: Seq<char>) -> Seq<char> {
    path.take(name_start(unix, path))
}

/// The root, a drive, the root of a drive, or a share.
pub open spec fn is_root(unix: bool, path: Seq<char>) -> bool {
    ||| path.len() == 1 && separates(unix, path[0])
    ||| !unix && has_colon(path) && path.len() == 2
    ||| !unix && has_colon(path) && path.len() == 3 && is_slash(path[2])
    ||| {
        &&& !unix
        &&& on_share(path)
        &&& forall|i: int| server_len(path) + 3 <= i < path.len() - 1 ==> !is_slash(path[i])
    }
}

/// A path without the separators and the `.` components it ends in. A `.`
/// that it starts with stays.
pub open spec fn trimmed_path(unix: bool, path: Seq<char>) -> Seq<char>
    decreases path.len(),
    via trimmed_path_decreases
{
    let front = front_part(unix, path);
    if path.len() == 0 || is_root(unix, path) {
        path
    } else if separates(unix, path.last()) {
        trimmed_path(unix, path.drop_last())
    } else if last_part(unix, path) == seq!['.'] && front.len() > 0 && !(!unix && has_colon(front)
        && front.len() == 2) {
        trimmed_path(unix, front)
    } else {
        path
    }
}

#[via_fn]
proof fn trimmed_path_decreases(unix: bool, path: Seq<char>) {
    lemma_name_start(unix, path);
}

/// The last component starts within the path, and it is not empty where the
/// path does not end in a separator or a drive.
pub proof fn lemma_name_start(unix: bool, path: Seq<char>)
    ensures
        0 <= name_start(unix, path) <= path.len(),
        path.len() > 0 && !separates(unix, path.last()) && !is_root(unix, path) ==> name_start(
            unix,
            path,
        ) < path.len(),
    decreases path.len(),
{
    if path.len() > 0 {
        lemma_name_start(unix, path.drop_last());
    }
}

/// The file name of a path: its last component. The root, a drive, a share,
/// `..` and `.` have none.
pub open spec fn file_name_of(unix: bool, path: Seq<char>) -> Option<Seq<char>> {
    let whole = trimmed_path(unix, path);
    let name = last_part(unix, whole);
    if whole.len() == 0 || is_root(unix, whole) || name == seq!['.'] || name == seq!['.', '.'] {
        None
    } else {
        Some(name)
    }
}

/// A file name that a host can find in a path.
pub open spec fn file_name_on(unix: bool, path: Seq<char>, r: Option<Seq<char>>) -> bool {
    readable(unix, path) ==> r == file_name_of(unix, path)
}

/// A file name that one of the hosts finds in a path.
pub open spec fn file_name_fact(path: Seq<char>, r: Option<Seq<char>>) -> bool {
    file_name_on(true, path, r) || file_name_on(false, path, r)
}

/// The parent of a path: what stands before its last component. The root, a
/// drive, a share and the empty path have none.
pub open spec fn parent_of(unix: bool, path: Seq<char>) -> Option<Seq<char>> {
    let whole = trimmed_path(unix, path);
    if whole.len() == 0 || is_root(unix, whole) {
        None
    } else {
        Some(trimmed_path(unix, front_part(unix, whole)))
    }
}

/// A parent that a host can find of a path.
pub open spec fn parent_on(unix: bool, path: Seq<char>, r: Option<Seq<char>>) -> bool {
    readable(unix, path) ==> r == parent_of(unix, path)
}

/// A parent that one of the hosts finds of a path.
pub open spec fn parent_fact(path: Seq<char>, r: Option<Seq<char>>) -> bool {
    parent_on(true, path, r) || parent_on(false, path, r)
}

/// What a new file name is joined to: the parent of a path with a file name,
/// any other path itself.
pub open spec fn name_base(unix: bool, path: Seq<char>) -> Seq<char> {
    match (file_name_of(unix, path), parent_of(unix, path)) {
        (Some(_), Some(dir)) => dir,
        _ => path,
    }
}

/// A path that a host can make by replacing the file name of another.
pub open spec fn with_file_name_on(
    unix: bool,
    path: Seq<char>,
    name: Seq<char>,
    r: Seq<char>,
) -> bool {
    readable(unix, path) ==> join_on(unix, name_base(unix, path), name, r)
}

/// A path that one of the hosts makes by replacing the file name of another.
pub open spec fn with_file_name_fact(path: Seq<char>, name: Seq<char>, r: Seq<char>) -> bool {
    with_file_name_on(true, path, name, r) || with_file_name_on(false, path, name, r)
}

/// The extension of a path: what follows the last dot of its file name,
/// unless the name starts with that dot.
pub open spec fn extension_of(unix: bool, path: Seq<char>) -> Option<Seq<char>> {
    match file_name_of(unix, path) {
        Some(name) => if last_index(name, '.') > 0 {
            Some(name.skip(last_index(name, '.') + 1))
        } else {
            None
        },
        None => None,
    }
}

/// An extension that a host can find in a path.
pub open spec fn extension_on(unix: bool, path: Seq<char>, r: Option<Seq<char>>) -> bool {
    readable(unix, path) ==> r == extension_of(unix, path)
}

/// An extension that one of the hosts finds in a path.
pub open spec fn extension_fact(path: Seq<char>, r: Option<Seq<char>>) -> bool {
    extension_on(true, path, r) || extension_on(false, path, r)
}

/// The path with another extension: it replaces the one there is or is put
/// behind the file name. A path without a file name stays as it is.
pub open spec fn with_extension_of(unix: bool, path: Seq<char>, ext: Seq<char>) -> Seq<char> {
    match (file_name_of(unix, path), extension_of(unix, path)) {
        (None, _) => path,
        (Some(_), None) => path + seq!['.'] + ext,
        (Some(_), Some(old)) => path.take(path.len() - old.len()) + ext,
    }
}

/// Whether it is stated what a path with another extension is: not where it
/// ends in a separator or a `.` component, nor where its name without the
/// extension is a dot.
pub open spec fn extendable(unix: bool, path: Seq<char>) -> bool {
    &&& readable(unix, path)
    &&& trimmed_path(unix, path) == path
    &&& !(last_part(unix, path).len() > 1 && last_part(unix, path)[0] == '.' && last_index(
        last_part(unix, path),
        '.',
    ) == 1)
}

/// A path with another extension that a host can make.
pub open spec fn with_extension_on(
    unix: bool,
    path: Seq<char>,
    ext: Seq<char>,
    r: Seq<char>,
) -> bool {
    extendable(unix, path) && ext.len() > 0 ==> r == with_extension_of(unix, path, ext)
}

/// A path with another extension that one of the hosts makes.
pub open spec fn with_extension_fact(path: Seq<char>, ext: Seq<char>, r: Seq<char>) -> bool {
    with_extension_on(true, path, ext, r) || with_extension_on(false, path, ext, r)
}

/// Whether two roots are the same: on Windows with the same drive, whichever
/// separator stands behind it.
pub open spec fn same_root(unix: bool, a: Seq<char>, b: Seq<char>) -> bool {
    if unix {
        a == b
    } else {
        a.len() == b.len() && (a.len() >= 2 ==> a[0] == b[0])
    }
}

/// Whether two paths have the same components.
pub open spec fn same_parts(unix: bool, a: Seq<char>, b: Seq<char>) -> bool
    decreases a.len(),
    via same_parts_decreases
{
    let p = trimmed_path(unix, a);
    let q = trimmed_path(unix, b);
    if p.len() == 0 || is_root(unix, p) || q.len() == 0 || is_root(unix, q) {
        (p.len() == 0 || is_root(unix, p)) && (q.len() == 0 || is_root(unix, q)) && same_root(
            unix,
            p,
            q,
        )
    } else {
        last_part(unix, p) == last_part(unix, q) && same_parts(
            unix,
            front_part(unix, p),
            front_part(unix, q),
        )
    }
}

#[via_fn]
proof fn same_parts_decreases(unix: bool, a: Seq<char>, b: Seq<char>) {
    lemma_trimmed(unix, a);
    lemma_name_start(unix, trimmed_path(unix, a));
}

/// A trimmed path is no longer than the path, and ends in a component where
/// it is not empty and no root.
pub proof fn lemma_trimmed(unix: bool, path: Seq<char>)
    ensures
        ({
            let p = trimmed_path(unix, path);
            &&& p.len() <= path.len()
            &&& p.len() > 0 && !is_root(unix, p) ==> !separates(unix, p.last())
        }),
    decreases path.len(),
{
    if path.len() > 0 && !is_root(unix, path) {
        lemma_name_start(unix, path);
        if separates(unix, path.last()) {
            lemma_trimmed(unix, path.drop_last());
        } else if last_part(unix, path) == seq!['.'] {
            lemma_trimmed(unix, front_part(unix, path));
        }
    }
}

/// Whether it is stated if a host takes two paths for the same. Of Windows it
/// is not for shares, nor for drives that differ in case only.
pub open spec fn comparable(unix: bool, a: Seq<char>, b: Seq<char>) -> bool {
    unix || {
        &&& readable(false, a) && !shared(a)
        &&& readable(false, b) && !shared(b)
        &&& has_colon(a) && has_colon(b) ==> a[0] as int - b[0] as int != 32 && b[0] as int
            - a[0] as int != 32
    }
}

/// An answer to whether two paths are the same that a host can give.
pub open spec fn same_path_on(unix: bool, a: Seq<char>, b: Seq<char>, r: bool) -> bool {
    comparable(unix, a, b) ==> r == same_parts(unix, a, b)
}

/// An answer to whether two paths are the same that one of the hosts gives. A
/// path is the same as itself, and differs from one with another name.
pub open spec fn same_path_fact(a: Seq<char>, b: Seq<char>, r: bool) -> bool {
    &&& a == b ==> r
    &&& named(a) && named(b) && tail(a) != tail(b) ==> !r
    &&& same_path_on(true, a, b, r) || same_path_on(false, a, b, r)
}

/// A path in which every host finds the same components: it has no `\\` and
/// no `:`, and does not start with two separators.
pub open spec fn slashed(path: Seq<char>) -> bool {
    !path.contains('\\') && !path.contains(':') && !shared(path)
}

/// What a path starts with is read alike where the path is.
pub proof fn lemma_slashed_take(path: Seq<char>, n: int)
    requires
        slashed(path),
        0 <= n <= path.len(),
    ensures
        slashed(path.take(n)),
{
    let start = path.take(n);
    if start.contains('\\') {
        let k = choose|k: int| 0 <= k < start.len() && start[k] == '\\';
        assert(path[k] == '\\');
    }
    if start.contains(':') {
        let k = choose|k: int| 0 <= k < start.len() && start[k] == ':';
        assert(path[k] == ':');
    }
}

/// Every host finds the same last component and the same root.
pub proof fn lemma_slashed_name(path: Seq<char>)
    requires
        slashed(path),
    ensures
        readable(false, path),
        is_root(true, path) == is_root(false, path),
        name_start(true, path) == name_start(false, path),
    decreases path.len(),
{
    assert forall|i: int| 0 <= i < path.len() implies path[i] != '\\' && path[i] != ':' by {
        assert(path.contains(path[i]));
    }
    if path.len() > 0 {
        assert(path.drop_last() =~= path.take(path.len() - 1));
        lemma_slashed_take(path, path.len() - 1);
        lemma_slashed_name(path.drop_last());
    }
}

/// Every host leaves the same of a path when its end is trimmed.
pub proof fn lemma_slashed_trimmed(path: Seq<char>)
    requires
        slashed(path),
    ensures
        trimmed_path(true, path) == trimmed_path(false, path),
        slashed(trimmed_path(true, path)),
    decreases path.len(),
{
    lemma_slashed_name(path);
    lemma_name_start(true, path);
    assert forall|i: int| 0 <= i < path.len() implies path[i] != '\\' && path[i] != ':' by {
        assert(path.contains(path[i]));
    }
    if path.len() > 0 && !is_root(true, path) {
        if separates(true, path.last()) {
            assert(path.drop_last() =~= path.take(path.len() - 1));
            lemma_slashed_take(path, path.len() - 1);
            lemma_slashed_trimmed(path.drop_last());
        } else {
            let n = name_start(true, path);
            lemma_slashed_take(path, n);
            if last_part(true, path) == seq!['.'] {
                lemma_slashed_trimmed(path.take(n));
            }
        }
    }
}

/// Every host takes the same paths for the same.
pub proof fn lemma_slashed_same(a: Seq<char>, b: Seq<char>)
    requires
        slashed(a),
        slashed(b),
    ensures
        comparable(false, a, b),
        same_parts(true, a, b) == same_parts(false, a, b),
    decreases a.len(),
{
    lemma_slashed_name(a);
    lemma_slashed_name(b);
    lemma_slashed_trimmed(a);
    lemma_slashed_trimmed(b);
    let p = trimmed_path(true, a);
    let q = trimmed_path(true, b);
    lemma_slashed_name(p);
    lemma_slashed_name(q);
    lemma_trimmed(true, a);
    lemma_name_start(true, p);
    lemma_name_start(true, q);
    assert forall|i: int| 0 <= i < a.len() implies a[i] != ':' by {
        assert(a.contains(a[i]));
    }
    assert forall|i: int| 0 <= i < p.len() implies p[i] != '\\' && p[i] != ':' by {
        assert(p.contains(p[i]));
    }
    assert forall|i: int| 0 <= i < q.len() implies q[i] != '\\' && q[i] != ':' by {
        assert(q.contains(q[i]));
    }
    if p.len() == 0 || is_root(true, p) || q.len() == 0 || is_root(true, q) {
        if (p.len() == 0 || is_root(true, p)) && (q.len() == 0 || is_root(true, q)) {
            if p.len() == q.len() {
                assert(p =~= q);
            }
        }
    } else {
        lemma_slashed_take(p, name_start(true, p));
        lemma_slashed_take(q, name_start(true, q));
        lemma_slashed_same(front_part(true, p), front_part(true, q));
    }
}

/// A plain name behind a separator, or behind nothing, is the last component.
pub proof fn lemma_last_part(unix: bool, front: Seq<char>, name: Seq<char>)
    requires
        plain(name),
        front.len() == 0 || separates(unix, front.last()),
    ensures
        name_start(unix, front + name) == front.len(),
        last_part(unix, front + name) == name,
        front_part(unix, front + name) == front,
    decreases name.len(),
{
    let path = front + name;
    if name.len() == 0 {
        assert(path =~= front);
    } else {
        let init = name.drop_last();
        assert forall|i: int| 0 <= i < init.len() implies !is_mark(init[i]) by {
            assert(!is_mark(name[i]));
        }
        lemma_last_part(unix, front, init);
        assert(!is_mark(name[name.len() - 1]));
        assert(path.last() == name.last());
        assert(path.drop_last() =~= front + init);
    }
    assert(last_part(unix, path) =~= name);
    assert(front_part(unix, path) =~= front);
}

/// A plain name is its own tail.
pub proof fn lemma_plain_tail(name: Seq<char>)
    requires
        plain(name),
    ensures
        mark_end(name) == 0,
        tail(name) == name,
    decreases name.len(),
{
    if name.len() > 0 {
        let init = name.drop_last();
        assert forall|i: int| 0 <= i < init.len() implies !is_mark(init[i]) by {
            assert(!is_mark(name[i]));
        }
        lemma_plain_tail(init);
        assert(!is_mark(name[name.len() - 1]));
    }
    assert(tail(name) =~= name);
}

/// The views of an optional string.
pub open spec fn text_view(t: Option<String>) -> Option<Seq<char>> {
    match t {
        Some(s) => Some(s@),
        None => None,
    }
}

/// `std::path::Path::is_absolute`. It follows the rule of Unix or that of
/// Windows; which one is not stated, for the host decides.
#[verifier::external_body]
pub(crate) fn path_is_absolute(path: &str) -> (r: bool)
    ensures
        absolute_fact(path@, r),
{
    std::path::Path::new(path).is_absolute()
}

/// `std::path::Path::join`. It follows the rule of Unix or that of Windows,
/// where what becomes of verbatim directories and devices is not stated.
#[verifier::external_body]
pub(crate) fn path_join(dir: &str, name: &str) -> (r: String)
    ensures
        join_fact(dir@, name@, r@),
{
    std::path::Path::new(dir).join(name).to_string_lossy().into_owned()
}

/// `std::path::Path::extension`. It follows the rule of Unix or that of
/// Windows.
#[verifier::external_body]
pub(crate) fn path_extension(path: &str) -> (r: Option<String>)
    ensures
        extension_fact(path@, text_view(r)),
{
    std::path::Path::new(path).extension().map(|e| e.to_string_lossy().into_owned())
}

/// `std::path::Path::with_extension`. It follows the rule of Unix or that of
/// Windows. It panics where the extension holds a separator. Not stated are
/// paths that end in a separator, and names such as `..b`.
#[verifier::external_body]
pub(crate) fn path_with_extension(path: &str, ext: &str) -> (r: String)
    requires
        plain(ext@),
    ensures
        with_extension_fact(path@, ext@, r@),
{
    std::path::Path::new(path).with_extension(ext).to_string_lossy().into_owned()
}

/// `==` of `std::path::Path`, which compares components. It follows the rule
/// of Unix or that of Windows, where drives that differ in case are not
/// stated.
#[verifier::external_body]
pub(crate) fn path_same(a: &str, b: &str) -> (r: bool)
    ensures
        same_path_fact(a@, b@, r),
{
    std::path::Path::new(a) == std::path::Path::new(b)
}

/// `std::path::Path::parent`. It follows the rule of Unix or that of Windows.
#[verifier::external_body]
pub(crate) fn path_parent(path: &str) -> (r: Option<String>)
    ensures
        parent_fact(path@, text_view(r)),
{
    std::path::Path::new(path).parent().map(|p| p.to_string_lossy().into_owned())
}

/// `std::path::Path::file_name`. It follows the rule of Unix or that of
/// Windows.
#[verifier::external_body]
pub(crate) fn path_file_name(path: &str) -> (r: Option<String>)
    ensures
        file_name_fact(path@, text_view(r)),
{
    std::path::Path::new(path).file_name().map(|n| n.to_string_lossy().into_owned())
}

/// `std::path::Path::with_file_name`. It joins the new name to the parent by
/// the rule of Unix or that of Windows.
#[verifier::external_body]
pub(crate) fn path_with_file_name(path: &str, name: &str) -> (r: String)
    ensures
        with_file_name_fact(path@, name@, r@),
{
    std::path::Path::new(path).with_file_name(name).to_string_lossy().into_owned()
}

/// The text that bytes are read as, invalid sequences replaced.
pub uninterp spec fn lossy_text(bytes: Seq<u8>) -> Seq<char>;

/// `String::from_utf8_lossy`: what it reads depends on the bytes alone, and
/// valid UTF-8 is read as what it encodes.
#[verifier::external_body]
pub(crate) fn text_from_bytes(bytes: &[u8]) -> (r: String)
    ensures
        r@ == lossy_text(bytes@),
        vstd::utf8::valid_utf8(bytes@) ==> r@ == vstd::utf8::decode_utf8(bytes@),
{
    String::from_utf8_lossy(bytes).into_owned()
}

} // verus!
