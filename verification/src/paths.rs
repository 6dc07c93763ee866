//! Path handling over plain strings: file names, workspace-relative paths,
//! separator-aware segment checks and normalization to forward slashes.

use vstd::prelude::*;
use vstd::string::StrSliceExecFns;
use vstd::string::StringExecFns;

use crate::skip::{should_skip_dir, spec_skip_dir};

verus! {

/// A path separator of either host convention.
pub open spec fn is_sep(c: char) -> bool {
    c == '/' || c == '\\'
}

/// Index of the last separator in `p`, if any.
pub open spec fn rfind_sep(p: Seq<char>) -> Option<int>
    decreases p.len(),
{
    if p.len() == 0 {
        None
    } else if is_sep(p[p.len() - 1]) {
        Some(p.len() - 1)
    } else {
        rfind_sep(p.drop_last())
    }
}

/// The final, non-empty component of `p`: the text after the last separator.
pub open spec fn file_name_of(p: Seq<char>) -> Option<Seq<char>> {
    match rfind_sep(p) {
        None => if p.len() == 0 {
            None
        } else {
            Some(p)
        },
        Some(i) => if i + 1 == p.len() {
            None
        } else {
            Some(p.subrange(i + 1, p.len() as int))
        },
    }
}

/// If no separator stands at or after `i` and the character before `i` is a
/// separator (or the start), the last separator is right before `i`.
proof fn lemma_rfind_sep_at(p: Seq<char>, i: int)
    requires
        0 <= i <= p.len(),
        forall|k: int| i <= k < p.len() ==> !is_sep(p[k]),
        i == 0 || is_sep(p[i - 1]),
    ensures
        rfind_sep(p) == if i == 0 {
            None::<int>
        } else {
            Some(i - 1)
        },
    decreases p.len(),
{
    if p.len() == 0 {
    } else if is_sep(p[p.len() - 1]) {
        assert(i == p.len());
    } else {
        assert(i < p.len());
        lemma_rfind_sep_at(p.drop_last(), i);
    }
}

/// Executable counterpart of `is_sep`.
pub fn is_sep_char(c: char) -> (r: bool)
    ensures
        r == is_sep(c),
{
    c == '/' || c == '\\'
}

/// The final, non-empty component of `p`, as `file_name_of` gives it.
pub fn file_name(p: &str) -> (r: Option<&str>)
    ensures
        match r {
            Some(n) => file_name_of(p@) == Some(n@),
            None => file_name_of(p@) is None,
        },
{
    let n = p.unicode_len();
    let mut i: usize = n;
    while i > 0 && !is_sep_char(p.get_char(i - 1))
        invariant
            i <= n,
            n == p@.len(),
            forall|k: int| i <= k < n ==> !is_sep(p@[k]),
        decreases i,
    {
        i -= 1;
    }
    proof {
        lemma_rfind_sep_at(p@, i as int);
    }
    if i == n {
        None
    } else if i == 0 {
        Some(p)
    } else {
        let name = p.substring_char(i, n);
        Some(name)
    }
}

/// The path relative to `root`: `path` must extend `root` by a separator and
/// a non-empty remainder, else it lies outside the root.
pub open spec fn rel_of(root: Seq<char>, path: Seq<char>) -> Option<Seq<char>> {
    if root.len() + 1 < path.len() && path.subrange(0, root.len() as int) == root && is_sep(
        path[root.len() as int],
    ) {
        Some(path.subrange(root.len() as int + 1, path.len() as int))
    } else {
        None
    }
}

/// Strip `root` and the following separator from `path`.
pub fn strip_root<'a>(root: &str, path: &'a str) -> (r: Option<&'a str>)
    ensures
        match r {
            Some(rel) => rel_of(root@, path@) == Some(rel@),
            None => rel_of(root@, path@) is None,
        },
{
    let nr = root.unicode_len();
    let np = path.unicode_len();
    if np <= nr || np - nr < 2 {
        return None;
    }
    if !range_prefix(path, root) {
        return None;
    }
    if !is_sep_char(path.get_char(nr)) {
        return None;
    }
    Some(path.substring_char(nr + 1, np))
}

/// `path` starts with `root`.
fn range_prefix(path: &str, root: &str) -> (r: bool)
    requires
        root@.len() <= path@.len(),
    ensures
        r == (path@.subrange(0, root@.len() as int) == root@),
{
    crate::text::range_matches(path, 0, root)
}

/// `[i, j)` is a full separator-delimited segment of `p`.
pub open spec fn seg_at(p: Seq<char>, i: int, j: int) -> bool {
    &&& 0 <= i <= j <= p.len()
    &&& (i == 0 || is_sep(p[i - 1]))
    &&& (forall|k: int| i <= k < j ==> !is_sep(p[k]))
    &&& (j == p.len() || is_sep(p[j]))
}

/// Some segment of `p` is a directory name the skip policy excludes.
pub open spec fn has_skipped_segment(p: Seq<char>) -> bool {
    exists|i: int, j: int| seg_at(p, i, j) && spec_skip_dir(p.subrange(i, j))
}

/// Scan the separator-delimited segments of `p` for one the skip policy
/// excludes: the watcher must hide exactly what a fresh scan would skip.
pub fn any_segment_skipped(p: &str) -> (r: bool)
    ensures
        r == has_skipped_segment(p@),
{
    let n = p.unicode_len();
    let mut ls: usize = 0;
    let mut pos: usize = 0;
    while pos < n
        invariant
            ls <= pos <= n,
            n == p@.len(),
            ls == 0 || is_sep(p@[ls - 1]),
            forall|k: int| ls <= k < pos ==> !is_sep(p@[k]),
            forall|i2: int, j2: int|
                seg_at(p@, i2, j2) && j2 < pos ==> !spec_skip_dir(p@.subrange(i2, j2)),
        decreases n - pos,
    {
        let c = p.get_char(pos);
        if is_sep_char(c) {
            let seg = p.substring_char(ls, pos);
            if should_skip_dir(seg) {
                proof {
                    assert(seg_at(p@, ls as int, pos as int));
                }
                return true;
            }
            proof {
                assert forall|i2: int, j2: int|
                    seg_at(p@, i2, j2) && j2 < pos + 1 implies !spec_skip_dir(
                    p@.subrange(i2, j2),
                ) by {
                    if j2 == pos {
                        if i2 < ls {
                            assert(!is_sep(p@[ls - 1]));
                            assert(false);
                        }
                        if i2 > ls {
                            assert(is_sep(p@[i2 - 1]));
                            assert(false);
                        }
                        assert(i2 == ls);
                    }
                }
            }
            ls = pos + 1;
        } else {
            proof {
                assert forall|i2: int, j2: int|
                    seg_at(p@, i2, j2) && j2 < pos + 1 implies !spec_skip_dir(
                    p@.subrange(i2, j2),
                ) by {
                    if j2 == pos {
                        assert(is_sep(p@[j2]));
                        assert(false);
                    }
                }
            }
        }
        pos += 1;
    }
    let seg = p.substring_char(ls, n);
    if should_skip_dir(seg) {
        proof {
            assert(seg_at(p@, ls as int, n as int));
        }
        return true;
    }
    proof {
        assert forall|i2: int, j2: int| seg_at(p@, i2, j2) implies !spec_skip_dir(
            p@.subrange(i2, j2),
        ) by {
            if j2 == n {
                if i2 < ls {
                    assert(!is_sep(p@[ls - 1]));
                    assert(false);
                }
                if i2 > ls {
                    assert(is_sep(p@[i2 - 1]));
                    assert(false);
                }
                assert(i2 == ls);
            }
        }
    }
    false
}

/// A separator-free, non-empty name that the skip policy admits has no
/// skipped segment: its only segment is the whole name.
pub proof fn lemma_name_no_skipped(name: Seq<char>)
    requires
        name.len() > 0,
        forall|k: int| 0 <= k < name.len() ==> !is_sep(name[k]),
        !spec_skip_dir(name),
    ensures
        !has_skipped_segment(name),
{
    if has_skipped_segment(name) {
        let (i, j) = choose|i: int, j: int|
            seg_at(name, i, j) && spec_skip_dir(name.subrange(i, j));
        assert(i == 0);
        assert(j == name.len());
        assert(name.subrange(0, name.len() as int) =~= name);
    }
}

/// A segment of `name + '/' + q`, for a separator-free non-empty `name`, is
/// either `name` itself or a segment of `q`.
pub proof fn lemma_seg_of_join(name: Seq<char>, q: Seq<char>, i: int, j: int)
    requires
        name.len() > 0,
        forall|k: int| 0 <= k < name.len() ==> !is_sep(name[k]),
        seg_at(name + seq!['/'] + q, i, j),
    ensures
        (i == 0 && j == name.len() && (name + seq!['/'] + q).subrange(i, j) =~= name) || (seg_at(
            q,
            i - name.len() - 1,
            j - name.len() - 1,
        ) && (name + seq!['/'] + q).subrange(i, j) =~= q.subrange(
            i - name.len() - 1,
            j - name.len() - 1,
        )),
{
    let p = name + seq!['/'] + q;
    let ln = name.len() as int;
    assert(p[ln] == '/');
    assert(forall|k: int| 0 <= k < ln ==> p[k] == name[k]);
    assert(forall|k: int| 0 <= k < q.len() ==> p[ln + 1 + k] == q[k]);
    if i <= ln {
        assert(i == 0) by {
            if i > 0 {
                assert(is_sep(p[i - 1]));
                assert(!is_sep(name[i - 1]));
            }
        }
        assert(j == ln) by {
            if j < ln {
                assert(is_sep(p[j]));
                assert(!is_sep(name[j]));
            }
            if j > ln {
                assert(!is_sep(p[ln]));
            }
        }
        assert(p.subrange(0, ln) =~= name);
    } else {
        assert(i >= ln + 1);
        assert(seg_at(q, i - ln - 1, j - ln - 1)) by {
            if i - ln - 1 > 0 {
                assert(p[i - 1] == q[i - ln - 2]);
            }
            assert forall|k: int| i - ln - 1 <= k < j - ln - 1 implies !is_sep(q[k]) by {
                assert(q[k] == p[ln + 1 + k]);
            }
            if j - ln - 1 < q.len() {
                assert(p[j] == q[j - ln - 1]);
            }
        }
        assert(p.subrange(i, j) =~= q.subrange(i - ln - 1, j - ln - 1));
    }
}

/// Prefixing a clean path with an admitted, separator-free directory name
/// keeps it free of skipped segments.
pub proof fn lemma_join_no_skipped(name: Seq<char>, q: Seq<char>)
    requires
        name.len() > 0,
        forall|k: int| 0 <= k < name.len() ==> !is_sep(name[k]),
        !spec_skip_dir(name),
        !has_skipped_segment(q),
    ensures
        !has_skipped_segment(name + seq!['/'] + q),
{
    let p = name + seq!['/'] + q;
    if has_skipped_segment(p) {
        let (i, j) = choose|i: int, j: int| seg_at(p, i, j) && spec_skip_dir(p.subrange(i, j));
        lemma_seg_of_join(name, q, i, j);
    }
}

/// `p` with every separator replaced by a forward slash.
pub open spec fn norm_seps(p: Seq<char>) -> Seq<char> {
    p.map_values(
        |c: char|
            if c == '\\' {
                '/'
            } else {
                c
            },
    )
}

/// Normalized paths never carry a host-convention backslash.
pub proof fn lemma_norm_no_backslash(p: Seq<char>)
    ensures
        forall|k: int| 0 <= k < norm_seps(p).len() ==> norm_seps(p)[k] != '\\',
{
}

/// Rewrite `p` with forward-slash separators.
pub fn normalize_separators(p: &str) -> (r: String)
    ensures
        r@ == norm_seps(p@),
{
    let n = p.unicode_len();
    let mut out = String::new();
    let mut ls: usize = 0;
    let mut pos: usize = 0;
    proof {
        reveal_strlit("/");
    }
    while pos < n
        invariant
            ls <= pos <= n,
            n == p@.len(),
            "/"@ =~= seq!['/'],
            out@ == norm_seps(p@.subrange(0, ls as int)),
            forall|k: int| ls <= k < pos ==> !is_sep(p@[k]),
        decreases n - pos,
    {
        let c = p.get_char(pos);
        if is_sep_char(c) {
            let seg = p.substring_char(ls, pos);
            out.append(seg);
            out.append("/");
            proof {
                assert(out@ =~= norm_seps(p@.subrange(0, pos + 1)));
            }
            ls = pos + 1;
        }
        pos += 1;
    }
    let seg = p.substring_char(ls, n);
    out.append(seg);
    proof {
        assert(p@.subrange(0, n as int) =~= p@);
        assert(out@ =~= norm_seps(p@));
    }
    out
}

} // verus!
