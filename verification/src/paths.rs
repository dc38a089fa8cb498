//! Path strings: joining a directory path with an entry name, the base name
//! of a path (with its fall-back to the whole path), and the directory prefix
//! that has to exist before a file can be written.
//!
//! Paths are plain strings over the `/` separator; nothing here touches the
//! filesystem.

use vstd::prelude::*;

verus! {

/// The path of an entry `name` inside the directory at `dir`.
pub open spec fn join_path(dir: Seq<char>, name: Seq<char>) -> Seq<char> {
    dir.push('/') + name
}

/// `s` without its trailing separators.
pub open spec fn strip_slashes(s: Seq<char>) -> Seq<char>
    decreases s.len(),
{
    if s.len() > 0 && s[s.len() - 1] == '/' {
        strip_slashes(s.drop_last())
    } else {
        s
    }
}

/// The suffix of `s` after its last separator (all of `s` when it has none).
pub open spec fn last_segment(s: Seq<char>) -> Seq<char>
    decreases s.len(),
{
    if s.len() == 0 {
        s
    } else if s[s.len() - 1] == '/' {
        Seq::empty()
    } else {
        last_segment(s.drop_last()).push(s[s.len() - 1])
    }
}

/// The base name of a path: its last non-empty segment, ignoring trailing
/// separators. A path without one (a bare root like `/`, or the empty
/// string) falls back to the path itself.
pub open spec fn base_name(s: Seq<char>) -> Seq<char> {
    if last_segment(strip_slashes(s)).len() == 0 {
        s
    } else {
        last_segment(strip_slashes(s))
    }
}

/// The prefix of `s` up to and including its last separator; `None` when `s`
/// has no separator.
pub open spec fn parent_dir(s: Seq<char>) -> Option<Seq<char>>
    decreases s.len(),
{
    if s.len() == 0 {
        None
    } else if s[s.len() - 1] == '/' {
        Some(s)
    } else {
        parent_dir(s.drop_last())
    }
}

/// Spec-level view of an optional string.
pub open spec fn opt_str_view(r: Option<String>) -> Option<Seq<char>> {
    match r {
        Some(s) => Some(s@),
        None => None,
    }
}

/// On a stretch without separators that begins at `k` (either at the start
/// of `s` or right after a separator), the last segment is exactly that
/// stretch.
proof fn lemma_last_segment_skip(s: Seq<char>, k: int)
    requires
        0 <= k <= s.len(),
        forall|j: int| k <= j < s.len() ==> s[j] != '/',
        k == 0 || s[k - 1] == '/',
    ensures
        last_segment(s) =~= s.skip(k),
    decreases s.len(),
{
    if s.len() == 0 {
    } else if s.len() == k {
    } else {
        lemma_last_segment_skip(s.drop_last(), k);
        assert(last_segment(s) =~= s.skip(k));
    }
}

/// Joins a directory path and an entry name with the separator.
pub fn join_path_exec(dir: &str, name: &str) -> (r: String)
    ensures
        r@ == join_path(dir@, name@),
{
    let mut s = dir.to_owned();
    s.append("/");
    s.append(name);
    proof {
        reveal_strlit("/");
        assert(s@ =~= join_path(dir@, name@));
    }
    s
}

/// Base name of a path, with the fall-back to the whole path.
pub fn base_name_exec(path: &str) -> (r: String)
    ensures
        r@ == base_name(path@),
{
    let n = path.unicode_len();
    proof {
        assert(path@.take(n as int) =~= path@);
    }
    let mut end = n;
    while end > 0 && path.get_char(end - 1) == '/'
        invariant
            end <= n,
            n == path@.len(),
            strip_slashes(path@) == strip_slashes(path@.take(end as int)),
        decreases end,
    {
        proof {
            assert(path@.take(end as int).drop_last() =~= path@.take(end as int - 1));
        }
        end -= 1;
    }
    let ghost t = path@.take(end as int);
    proof {
        assert(strip_slashes(path@) == t);
    }
    let mut start = end;
    while start > 0 && path.get_char(start - 1) != '/'
        invariant
            start <= end,
            end <= n,
            n == path@.len(),
            forall|j: int| start <= j < end ==> path@[j] != '/',
        decreases start,
    {
        start -= 1;
    }
    proof {
        assert(forall|j: int| start <= j < t.len() ==> t[j] != '/');
        if start > 0 {
            assert(t[start as int - 1] == '/');
        }
        lemma_last_segment_skip(t, start as int);
    }
    if start == end {
        path.to_owned()
    } else {
        let seg = path.substring_char(start, end);
        proof {
            assert(seg@ =~= t.skip(start as int));
        }
        seg.to_owned()
    }
}

/// The directory prefix that must exist before a file at `path` can be
/// created: everything up to and including the last separator, or `None`
/// when the path is a bare name without one.
pub fn parent_dir_of(path: &str) -> (r: Option<String>)
    ensures
        opt_str_view(r) == parent_dir(path@),
{
    let n = path.unicode_len();
    proof {
        assert(path@.take(n as int) =~= path@);
    }
    let mut i = n;
    while i > 0 && path.get_char(i - 1) != '/'
        invariant
            i <= n,
            n == path@.len(),
            parent_dir(path@) == parent_dir(path@.take(i as int)),
        decreases i,
    {
        proof {
            assert(path@.take(i as int).drop_last() =~= path@.take(i as int - 1));
        }
        i -= 1;
    }
    if i == 0 {
        None
    } else {
        let pre = path.substring_char(0, i);
        proof {
            assert(pre@ =~= path@.take(i as int));
        }
        Some(pre.to_owned())
    }
}

} // verus!
