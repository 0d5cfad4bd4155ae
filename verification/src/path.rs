//! Paths as byte strings.
//!
//! A path is an opaque sequence of bytes in which `/` is the only reserved
//! byte. Trailing separators and trailing `.` components carry no meaning and
//! are dropped before a path is taken apart; a leading `/` (the root) or a
//! leading `.` is kept as it is.

use crate::error::{Error, ErrorView};
use vstd::prelude::*;
use vstd::slice::slice_subrange;
use vstd::string::StringSliceAdditionalSpecFns;

verus! {

/// The byte that separates the components of a path.
pub const SEPARATOR: u8 = 0x2f;

/// The byte `.`.
pub const DOT: u8 = 0x2e;

/// A path is absolute when it starts at the root.
pub open spec fn is_absolute(p: Seq<u8>) -> bool {
    p.len() > 0 && p[0] == SEPARATOR
}

/// A name is clean when it holds no separator, so that it names at most one
/// directory entry.
pub open spec fn clean(name: Seq<u8>) -> bool {
    forall|i: int| 0 <= i < name.len() ==> name[i] != SEPARATOR
}

/// The path `.`.
pub open spec fn dot() -> Seq<u8> {
    seq![DOT]
}

/// The path `..`.
pub open spec fn dotdot() -> Seq<u8> {
    seq![DOT, DOT]
}

/// The path `/`.
pub open spec fn root_path() -> Seq<u8> {
    seq![SEPARATOR]
}

/// The number of bytes at the front of a path that are never taken for an
/// ordinary component: 1 for a leading `/` and for a leading `.` that is a
/// component of its own, 0 otherwise.
pub open spec fn lead(p: Seq<u8>) -> int {
    if p.len() > 0 && p[0] == SEPARATOR {
        1
    } else if p.len() > 0 && p[0] == DOT && (p.len() == 1 || p[1] == SEPARATOR) {
        1
    } else {
        0
    }
}

/// Whether the last byte of `p[..n]` belongs to a trailing piece that carries
/// no meaning: a separator, or a `.` that is a whole component.
pub open spec fn droppable(p: Seq<u8>, lo: int, n: int) -> bool {
    lo < n <= p.len() && (p[n - 1] == SEPARATOR || (p[n - 1] == DOT && (n - 1 == lo || p[n - 2]
        == SEPARATOR)))
}

/// The length that is left of `p[..n]` once its trailing empty and `.`
/// components are dropped; never less than `lo`.
pub open spec fn kept(p: Seq<u8>, lo: int, n: int) -> int
    decreases n - lo,
{
    if droppable(p, lo, n) {
        kept(p, lo, n - 1)
    } else if n <= lo {
        lo
    } else {
        n
    }
}

/// Where the component that ends at `n` starts: behind the last separator of
/// `p[lo..n]`, or at `lo` when there is none.
pub open spec fn piece_start(p: Seq<u8>, lo: int, n: int) -> int
    decreases n - lo,
{
    if n <= lo || n > p.len() {
        lo
    } else if p[n - 1] == SEPARATOR {
        n
    } else {
        piece_start(p, lo, n - 1)
    }
}

/// The final component of a path, if it has one that names a directory
/// entry: `None` for the empty path, for `/`, for `.`, and for a path that
/// ends in `..`.
pub open spec fn file_name(p: Seq<u8>) -> Option<Seq<u8>> {
    let lo = lead(p);
    let end = kept(p, lo, p.len() as int);
    let name = p.subrange(piece_start(p, lo, end), end);
    if end == lo || name == dotdot() {
        None
    } else {
        Some(name)
    }
}

/// The path without its final component, if it has one: `None` for the empty
/// path and for one that is only the root.
pub open spec fn parent(p: Seq<u8>) -> Option<Seq<u8>> {
    let lo = lead(p);
    let end = kept(p, lo, p.len() as int);
    let start = piece_start(p, lo, end);
    if end == lo {
        if lo == 1 && p[0] == DOT {
            Some(Seq::empty())
        } else {
            None
        }
    } else {
        Some(p.subrange(0, kept(p, lo, if start == lo { lo } else { start - 1 })))
    }
}

/// The error for a path without a final component.
pub open spec fn no_trailing_component() -> ErrorView {
    ErrorView::InvalidArgument { name: "path"@, description: "no trailing component"@ }
}

/// The error for a final component that holds a separator.
pub open spec fn separator_in_name() -> ErrorView {
    ErrorView::SafetyViolation {
        description: "trailing component of split pathname contains '/'"@,
    }
}

/// The directory part of a path: what is in front of its final component,
/// and `/` where nothing is.
pub open spec fn directory(p: Seq<u8>) -> Seq<u8> {
    match parent(p) {
        Some(dir) => if dir.len() == 0 {
            root_path()
        } else {
            dir
        },
        None => root_path(),
    }
}

/// What is made of a name that is to stand for one directory entry: a name
/// that holds a separator is a safety violation.
pub open spec fn single(name: Seq<u8>) -> Result<(), ErrorView> {
    if name.contains(SEPARATOR) {
        Err(separator_in_name())
    } else {
        Ok(())
    }
}

/// What [`path_split`] returns: the directory part of a path, `/` where it
/// has none, and its final component.
pub open spec fn split(p: Seq<u8>) -> Result<(Seq<u8>, Seq<u8>), ErrorView> {
    match file_name(p) {
        None => Err(no_trailing_component()),
        Some(name) => match single(name) {
            Err(error) => Err(error),
            Ok(()) => Ok((directory(p), name)),
        },
    }
}

/// Whether `path` is `dir` or lies below it: `dir` is a prefix of `path`
/// that ends where a component of `path` ends.
pub open spec fn within(dir: Seq<u8>, path: Seq<u8>) -> bool {
    dir.is_prefix_of(path) && (path.len() == dir.len() || (dir.len() > 0 && dir.last()
        == SEPARATOR) || path[dir.len() as int] == SEPARATOR)
}

/// A path with nothing to drop at its end: it is what [`parent`] gives.
pub open spec fn trimmed(p: Seq<u8>) -> bool {
    kept(p, lead(p), p.len() as int) == p.len()
}

/// A name that [`file_name`] can give: not empty, clean, and neither `.` nor
/// `..`.
pub open spec fn ordinary(name: Seq<u8>) -> bool {
    name.len() > 0 && clean(name) && name != dot() && name != dotdot()
}

/// `name` appended to `dir` as one more component. An absolute `name`
/// replaces `dir`.
pub open spec fn join(dir: Seq<u8>, name: Seq<u8>) -> Seq<u8> {
    if is_absolute(name) {
        name
    } else if dir.len() == 0 || dir.last() == SEPARATOR {
        dir + name
    } else {
        dir + root_path() + name
    }
}

/// `kept` never leaves `lo..=n`, and what it keeps has nothing more to drop.
pub proof fn lemma_kept_bounds(p: Seq<u8>, lo: int, n: int)
    requires
        0 <= lo <= n <= p.len(),
    ensures
        lo <= kept(p, lo, n) <= n,
        !droppable(p, lo, kept(p, lo, n)),
        kept(p, lo, kept(p, lo, n)) == kept(p, lo, n),
    decreases n,
{
    if droppable(p, lo, n) {
        lemma_kept_bounds(p, lo, n - 1);
    }
}

/// The component that ends at `n` starts in `lo..=n`, holds no separator, and
/// has a separator in front of it unless it starts at `lo`.
pub proof fn lemma_piece_start(p: Seq<u8>, lo: int, n: int)
    requires
        0 <= lo <= n <= p.len(),
    ensures
        lo <= piece_start(p, lo, n) <= n,
        clean(p.subrange(piece_start(p, lo, n), n)),
        piece_start(p, lo, n) > lo ==> p[piece_start(p, lo, n) - 1] == SEPARATOR,
    decreases n,
{
    if n > lo && p[n - 1] != SEPARATOR {
        lemma_piece_start(p, lo, n - 1);
        let s = piece_start(p, lo, n);
        assert forall|i: int| 0 <= i < n - s implies #[trigger] p.subrange(s, n)[i]
            != SEPARATOR by {
            if i < n - 1 - s {
                assert(p.subrange(s, n - 1)[i] == p[s + i]);
            }
        }
    }
}

/// `kept` and `piece_start` read nothing behind `n`.
pub proof fn lemma_prefix(p: Seq<u8>, q: Seq<u8>, lo: int, n: int)
    requires
        0 <= lo <= n <= p.len(),
        n <= q.len(),
        p.subrange(0, n) == q.subrange(0, n),
    ensures
        kept(p, lo, n) == kept(q, lo, n),
        piece_start(p, lo, n) == piece_start(q, lo, n),
    decreases n,
{
    assert forall|i: int| 0 <= i < n implies p[i] == q[i] by {
        assert(p.subrange(0, n)[i] == p[i]);
        assert(q.subrange(0, n)[i] == q[i]);
    }
    if n > lo {
        assert(p.subrange(0, n - 1) == q.subrange(0, n - 1));
        lemma_prefix(p, q, lo, n - 1);
    }
}

/// Behind a clean stretch `p[s..n]` that follows a separator, the component
/// that ends at `n` starts at `s`.
pub proof fn lemma_piece_start_clean(p: Seq<u8>, lo: int, s: int, n: int)
    requires
        0 <= lo <= s <= n <= p.len(),
        s == lo || p[s - 1] == SEPARATOR,
        clean(p.subrange(s, n)),
    ensures
        piece_start(p, lo, n) == s,
    decreases n,
{
    if n > s {
        assert(p.subrange(s, n)[n - 1 - s] == p[n - 1]);
        assert forall|i: int| 0 <= i < n - 1 - s implies #[trigger] p.subrange(s, n - 1)[i]
            != SEPARATOR by {
            assert(p.subrange(s, n)[i] == p[s + i]);
        }
        lemma_piece_start_clean(p, lo, s, n - 1);
    }
}

/// The final component of a path is ordinary: it is not empty, holds no
/// separator, and is neither `.` nor `..`.
pub proof fn lemma_file_name_ordinary(p: Seq<u8>)
    ensures
        file_name(p) matches Some(name) ==> ordinary(name),
{
    let lo = lead(p);
    lemma_kept_bounds(p, lo, p.len() as int);
    let end = kept(p, lo, p.len() as int);
    lemma_piece_start(p, lo, end);
    let start = piece_start(p, lo, end);
    let name = p.subrange(start, end);
    if end > lo {
        if start == end {
            assert(p[end - 1] == SEPARATOR);
        }
        if name == dot() {
            assert(name[0] == p[start]);
        }
    }
}

/// A path with a final component has a directory part.
pub proof fn lemma_parent_of_named(p: Seq<u8>)
    ensures
        file_name(p) is Some ==> parent(p) is Some && trimmed(parent(p).unwrap()) && trimmed(
            directory(p),
        ) && 0 < directory(p).len() <= p.len(),
{
    assert(root_path().len() == 1 && root_path()[0] == SEPARATOR);
    assert(lead(root_path()) == 1);
    assert(kept(root_path(), 1, 1) == 1);
    let lo = lead(p);
    lemma_kept_bounds(p, lo, p.len() as int);
    let end = kept(p, lo, p.len() as int);
    if end > lo {
        lemma_piece_start(p, lo, end);
        let start = piece_start(p, lo, end);
        let cut = if start == lo {
            lo
        } else {
            start - 1
        };
        lemma_kept_bounds(p, lo, cut);
        let k = kept(p, lo, cut);
        let d = p.subrange(0, k);
        assert(lead(d) == lo) by {
            if k >= 1 {
                assert(d[0] == p[0]);
            }
            if k >= 2 {
                assert(d[1] == p[1]);
            }
        }
        assert(d.subrange(0, k) == p.subrange(0, k));
        lemma_prefix(d, p, lo, k);
    }
}

/// Splitting never reports a separator in the final component: the final
/// component of a path holds none.
pub proof fn lemma_split_is_safe(p: Seq<u8>)
    ensures
        split(p) matches Ok((dir, name)) ==> ordinary(name) && trimmed(dir) && dir.len() > 0,
        split(p) is Err ==> split(p) == Err::<(Seq<u8>, Seq<u8>), ErrorView>(
            no_trailing_component(),
        ),
        split(p) is Ok <==> file_name(p) is Some,
{
    lemma_file_name_ordinary(p);
    lemma_parent_of_named(p);
    if let Some(name) = file_name(p) {
        if name.contains(SEPARATOR) {
            let i = choose|i: int| 0 <= i < name.len() && name[i] == SEPARATOR;
            assert(name[i] == SEPARATOR);
        }
    }
}

/// Neither part of a split path is longer than the path.
pub proof fn lemma_split_shorter(p: Seq<u8>)
    ensures
        split(p) matches Ok((dir, name)) ==> dir.len() <= p.len() && name.len() <= p.len(),
{
    lemma_parent_of_named(p);
    let lo = lead(p);
    lemma_kept_bounds(p, lo, p.len() as int);
    let end = kept(p, lo, p.len() as int);
    if end > lo {
        lemma_piece_start(p, lo, end);
        let start = piece_start(p, lo, end);
        let cut = if start == lo {
            lo
        } else {
            start - 1
        };
        lemma_kept_bounds(p, lo, cut);
    }
}

/// Splitting undoes joining: for a directory part that is not empty and has
/// nothing to drop at its end, and an ordinary name, the joined path splits
/// into the two again.
pub proof fn lemma_split_join(dir: Seq<u8>, name: Seq<u8>)
    requires
        dir.len() > 0,
        trimmed(dir),
        ordinary(name),
    ensures
        split(join(dir, name)) == Ok::<(Seq<u8>, Seq<u8>), ErrorView>((dir, name)),
{
    let j = join(dir, name);
    let lo = lead(j);
    let n = j.len() as int;
    let s = n - name.len();
    assert(!is_absolute(name));
    assert(j.subrange(s, n) == name);
    assert(name.len() >= 2 ==> name[1] != SEPARATOR);
    assert(name[0] != SEPARATOR);
    assert(name.last() != SEPARATOR);
    if name.len() == 1 {
        assert(name[0] != DOT) by {
            if name[0] == DOT {
                assert(name =~= dot());
            }
        }
    }
    if dir.last() == SEPARATOR {
        lemma_kept_bounds(dir, lead(dir), dir.len() as int);
        assert(dir.len() == 1);
        assert(lo == 1);
    } else {
        assert(j[dir.len() as int] == SEPARATOR);
        assert(j[0] == dir[0]);
        if dir.len() >= 2 {
            assert(j[1] == dir[1]);
        }
        assert(lo == lead(dir));
    }
    assert(lo <= s);
    assert(s == lo || j[s - 1] == SEPARATOR);
    assert(j[n - 1] == name.last());
    if n - 2 >= s {
        assert(j[n - 2] == name[name.len() - 2]);
    }
    assert(!droppable(j, lo, n));
    assert(kept(j, lo, n) == n);
    lemma_piece_start_clean(j, lo, s, n);
    assert(file_name(j) == Some(name));
    let cut = if s == lo {
        lo
    } else {
        s - 1
    };
    if s == lo {
        assert(kept(j, lo, lo) == lo);
        assert(j.subrange(0, lo) =~= dir);
    } else {
        assert(cut == dir.len());
        assert(j.subrange(0, cut) =~= dir);
        assert(dir.subrange(0, cut) =~= dir);
        lemma_prefix(j, dir, lo, cut);
    }
    assert(parent(j) == Some(dir));
}

/// Splitting undoes joining nowhere else: a joined path that splits into
/// the two parts it was joined from has a directory part that is not empty
/// and has nothing to drop at its end, and an ordinary name.
pub proof fn lemma_split_join_only(dir: Seq<u8>, name: Seq<u8>)
    requires
        split(join(dir, name)) == Ok::<(Seq<u8>, Seq<u8>), ErrorView>((dir, name)),
    ensures
        dir.len() > 0,
        trimmed(dir),
        ordinary(name),
{
    lemma_split_is_safe(join(dir, name));
}

/// Whether `path` is absolute.
pub fn path_is_absolute(path: &[u8]) -> (r: bool)
    ensures
        r == is_absolute(path@),
{
    path.len() > 0 && path[0] == SEPARATOR
}

/// Whether `name` holds a separator.
pub fn has_separator(name: &[u8]) -> (r: bool)
    ensures
        r == name@.contains(SEPARATOR),
        r == !clean(name@),
{
    let mut i: usize = 0;
    while i < name.len()
        invariant
            i <= name@.len(),
            forall|k: int| 0 <= k < i ==> name@[k] != SEPARATOR,
        decreases name@.len() - i,
    {
        if name[i] == SEPARATOR {
            return true;
        }
        i += 1;
    }
    false
}

fn lead_len(path: &[u8]) -> (lo: usize)
    ensures
        lo == lead(path@),
        lo <= path@.len(),
{
    if path.len() > 0 && path[0] == SEPARATOR {
        1
    } else if path.len() > 0 && path[0] == DOT && (path.len() == 1 || path[1] == SEPARATOR) {
        1
    } else {
        0
    }
}

fn is_droppable(path: &[u8], lo: usize, n: usize) -> (r: bool)
    requires
        lo < n <= path@.len(),
    ensures
        r == droppable(path@, lo as int, n as int),
{
    path[n - 1] == SEPARATOR || (path[n - 1] == DOT && (n - 1 == lo || path[n - 2] == SEPARATOR))
}

fn kept_len(path: &[u8], lo: usize, n: usize) -> (r: usize)
    requires
        lo <= n <= path@.len(),
    ensures
        r == kept(path@, lo as int, n as int),
        lo <= r <= n,
{
    let mut m = n;
    while m > lo && is_droppable(path, lo, m)
        invariant
            lo <= m <= n <= path@.len(),
            kept(path@, lo as int, m as int) == kept(path@, lo as int, n as int),
        decreases m,
    {
        m -= 1;
    }
    m
}

fn piece_start_at(path: &[u8], lo: usize, n: usize) -> (r: usize)
    requires
        lo <= n <= path@.len(),
    ensures
        r == piece_start(path@, lo as int, n as int),
        lo <= r <= n,
{
    let mut m = n;
    while m > lo && path[m - 1] != SEPARATOR
        invariant
            lo <= m <= n <= path@.len(),
            piece_start(path@, lo as int, m as int) == piece_start(path@, lo as int, n as int),
        decreases m,
    {
        m -= 1;
    }
    m
}

fn is_dotdot(name: &[u8]) -> (r: bool)
    ensures
        r == (name@ == dotdot()),
{
    let r = name.len() == 2 && name[0] == DOT && name[1] == DOT;
    proof {
        if r {
            assert(name@ =~= dotdot());
        }
    }
    r
}

/// The final component of `path`, if it has one that names a directory
/// entry.
pub fn path_file_name<'p>(path: &'p [u8]) -> (r: Option<&'p [u8]>)
    ensures
        match r {
            Some(name) => file_name(path@) == Some(name@),
            None => file_name(path@) is None,
        },
{
    let lo = lead_len(path);
    let end = kept_len(path, lo, path.len());
    if end == lo {
        return None;
    }
    let start = piece_start_at(path, lo, end);
    let name = slice_subrange(path, start, end);
    if is_dotdot(name) {
        None
    } else {
        Some(name)
    }
}

/// `path` without its final component, if it has one.
pub fn path_parent<'p>(path: &'p [u8]) -> (r: Option<&'p [u8]>)
    ensures
        match r {
            Some(dir) => parent(path@) == Some(dir@),
            None => parent(path@) is None,
        },
{
    let lo = lead_len(path);
    let end = kept_len(path, lo, path.len());
    if end == lo {
        if lo == 1 && path[0] == DOT {
            let dir = slice_subrange(path, 0, 0);
            assert(dir@ =~= Seq::<u8>::empty());
            return Some(dir);
        }
        return None;
    }
    let start = piece_start_at(path, lo, end);
    let cut = if start == lo {
        lo
    } else {
        start - 1
    };
    let len = kept_len(path, lo, cut);
    Some(slice_subrange(path, 0, len))
}

/// The path `/`.
fn root_dir() -> (r: &'static [u8])
    ensures
        r@ == root_path(),
{
    let s = "/";
    proof {
        reveal_strlit("/");
        vstd::string::is_ascii_spec_bytes(s);
        assert(s.spec_bytes() =~= root_path());
    }
    s.as_bytes()
}

/// Splits a path into its directory part and its final component.
///
/// The directory part is `/` where the path has none. A path without a final
/// component is refused as an invalid argument, and a final component that
/// holds a separator as a safety violation: whatever follows works on one
/// directory entry and no further.
pub fn path_split<'p>(path: &'p [u8]) -> (r: Result<(&'p [u8], &'p [u8]), Error>)
    ensures
        match r {
            Ok((dir, name)) => split(path@) == Ok::<(Seq<u8>, Seq<u8>), ErrorView>(
                (dir@, name@),
            ),
            Err(e) => split(path@) == Err::<(Seq<u8>, Seq<u8>), ErrorView>(e@),
        },
        r matches Ok((dir, name)) ==> ordinary(name@) && trimmed(dir@),
        r is Ok <==> file_name(path@) is Some,
        r matches Err(e) ==> e@ == no_trailing_component(),
{
    proof {
        lemma_split_is_safe(path@);
    }
    let name = match path_file_name(path) {
        Some(name) => name,
        None => {
            return Err(
                Error::InvalidArgument {
                    name: "path".to_owned(),
                    description: "no trailing component".to_owned(),
                },
            );
        },
    };
    match single_component(name) {
        Err(error) => {
            return Err(error);
        },
        Ok(()) => {},
    }
    let dir = match path_parent(path) {
        Some(dir) => if dir.len() == 0 {
            root_dir()
        } else {
            dir
        },
        None => root_dir(),
    };
    Ok((dir, name))
}

/// Makes sure that `name` stands for one directory entry and no more. A name
/// that holds a separator could smuggle further components into the one call
/// that is made on it, and is refused as a safety violation.
pub fn single_component(name: &[u8]) -> (r: Result<(), Error>)
    ensures
        crate::error::result_view(r) == single(name@),
        r is Ok <==> clean(name@),
        r is Err <==> name@.contains(SEPARATOR),
        r matches Err(e) ==> e@ == separator_in_name(),
{
    if has_separator(name) {
        Err(
            Error::SafetyViolation {
                description: "trailing component of split pathname contains '/'".to_owned(),
            },
        )
    } else {
        Ok(())
    }
}

/// Whether `path` is `dir` or lies below it.
pub fn path_within(dir: &[u8], path: &[u8]) -> (r: bool)
    ensures
        r == within(dir@, path@),
{
    if dir.len() > path.len() {
        return false;
    }
    let mut i: usize = 0;
    while i < dir.len()
        invariant
            i <= dir@.len() <= path@.len(),
            forall|k: int| 0 <= k < i ==> dir@[k] == path@[k],
        decreases dir@.len() - i,
    {
        if dir[i] != path[i] {
            assert(dir@[i as int] != path@.subrange(0, dir@.len() as int)[i as int]);
            return false;
        }
        i += 1;
    }
    assert(dir@ =~= path@.subrange(0, dir@.len() as int));
    path.len() == dir.len() || (dir.len() > 0 && dir[dir.len() - 1] == SEPARATOR) || path[dir.len()]
        == SEPARATOR
}

/// Appends `name` to `dir` as one more component. An absolute `name`
/// replaces `dir`.
pub fn path_join(dir: &[u8], name: &[u8]) -> (r: Vec<u8>)
    ensures
        r@ == join(dir@, name@),
{
    let mut out: Vec<u8> = Vec::new();
    if !path_is_absolute(name) {
        extend(&mut out, dir);
        if dir.len() > 0 && dir[dir.len() - 1] != SEPARATOR {
            out.push(SEPARATOR);
        }
    }
    extend(&mut out, name);
    proof {
        assert(out@ =~= join(dir@, name@));
    }
    out
}

/// Appends the bytes of `tail` to `out`.
pub fn extend(out: &mut Vec<u8>, tail: &[u8])
    ensures
        final(out)@ == old(out)@ + tail@,
{
    let mut i: usize = 0;
    while i < tail.len()
        invariant
            i <= tail@.len(),
            out@ == old(out)@ + tail@.subrange(0, i as int),
        decreases tail@.len() - i,
    {
        out.push(tail[i]);
        i += 1;
        assert(out@ =~= old(out)@ + tail@.subrange(0, i as int));
    }
    assert(tail@.subrange(0, tail@.len() as int) =~= tail@);
}

} // verus!
