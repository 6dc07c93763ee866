//! The workspace scanner: depth-first descent over a directory tree,
//! collecting the workspace-relative, slash-joined paths of every managed
//! document, skipping hidden and deny-listed directories, and sorting the
//! result for deterministic output.
//!
//! The tree is an in-memory image of the workspace: directory listing is
//! plain I/O and stays with the caller, which hands the scanner names and
//! file contents as plain values. An unlistable directory is an
//! `UnreadableDir` node and makes the whole scan fail; an unreadable file is
//! a `File` without content and merely classifies as "not a document".

use vstd::prelude::*;
use vstd::relations::sorted_by;
use vstd::string::StrSliceExecFns;
use vstd::string::StringExecFns;

use crate::classifier::{is_managed, is_strata_content};
use crate::skip::{should_skip_dir, spec_skip_dir};
use crate::sorting::{lex_leq_rel, sort_strings, views_of};
use crate::text::{is_suffix_of, str_ends_with};

verus! {

/// In-memory image of one node of the workspace tree.
pub enum FsTree {
    /// A file and its content; `None` when the file cannot be read.
    File { content: Option<String> },
    /// A directory; `names` and `children` pair up index by index.
    Dir { names: Vec<String>, children: Vec<FsTree> },
    /// A directory whose entries cannot be listed.
    UnreadableDir,
}

/// The error of a scan: some reachable directory could not be listed, and no
/// partial listing is returned.
#[derive(Clone, Copy, PartialEq, Eq, Debug)]
pub enum ScanError {
    UnlistableDirectory,
}

/// The view of an optional content string.
pub open spec fn opt_view(c: Option<String>) -> Option<Seq<char>> {
    match c {
        Some(s) => Some(s@),
        None => None,
    }
}

/// A file of this name and content is recorded by the scan: managed
/// extension, not hidden, and content that carries the marker.
pub open spec fn file_qualifies(name: Seq<char>, content: Option<Seq<char>>) -> bool {
    &&& is_suffix_of(".md"@, name)
    &&& !(name.len() > 0 && name[0] == '.')
    &&& match content {
        Some(c) => is_managed(c),
        None => false,
    }
}

/// A valid image of a directory name: non-empty and free of separators.
pub open spec fn name_wf(n: Seq<char>) -> bool {
    n.len() > 0 && (forall|k: int| 0 <= k < n.len() ==> !crate::paths::is_sep(n[k]))
}

/// A valid tree image: names pair up with children and are valid names.
pub open spec fn tree_wf(t: FsTree) -> bool
    decreases t, 0int,
{
    match t {
        FsTree::File { .. } => true,
        FsTree::UnreadableDir => true,
        FsTree::Dir { names, children } => names@.len() == children@.len() && children_wf(
            names@,
            children@,
        ),
    }
}

/// All paired entries are valid.
pub open spec fn children_wf(names: Seq<String>, children: Seq<FsTree>) -> bool
    decreases children, 2int,
{
    if children.len() == 0 || names.len() != children.len() {
        true
    } else {
        &&& name_wf(names[0]@)
        &&& tree_wf(children[0])
        &&& children_wf(names.drop_first(), children.drop_first())
    }
}

/// Walking `t` as a directory succeeds: it is a listable directory and every
/// non-skipped subdirectory is as well.
pub open spec fn scan_ok(t: FsTree) -> bool
    decreases t, 0int,
{
    match t {
        FsTree::File { .. } => false,
        FsTree::UnreadableDir => false,
        FsTree::Dir { names, children } => children_ok(names@, children@),
    }
}

/// Every entry can be walked.
pub open spec fn children_ok(names: Seq<String>, children: Seq<FsTree>) -> bool
    decreases children, 2int,
{
    if children.len() == 0 || names.len() != children.len() {
        true
    } else {
        child_ok(names[0]@, children[0]) && children_ok(names.drop_first(), children.drop_first())
    }
}

/// One entry can be walked: files always; directories when skipped or
/// themselves walkable.
pub open spec fn child_ok(name: Seq<char>, t: FsTree) -> bool
    decreases t, 1int,
{
    match t {
        FsTree::File { .. } => true,
        _ => spec_skip_dir(name) || scan_ok(t),
    }
}

/// Prepend a directory name to a path, with a forward slash.
pub open spec fn join(pre: Seq<char>, p: Seq<char>) -> Seq<char> {
    if pre.len() == 0 {
        p
    } else {
        pre + seq!['/'] + p
    }
}

/// Prepend a prefix to every path.
pub open spec fn with_prefix(pre: Seq<char>, ps: Seq<Seq<char>>) -> Seq<Seq<char>> {
    ps.map_values(|p: Seq<char>| join(pre, p))
}

/// The relative paths of the managed documents under `t`, in entry order.
pub open spec fn tree_paths(t: FsTree) -> Seq<Seq<char>>
    decreases t, 0int,
{
    match t {
        FsTree::File { .. } => Seq::empty(),
        FsTree::UnreadableDir => Seq::empty(),
        FsTree::Dir { names, children } => children_paths(names@, children@),
    }
}

/// The paths contributed by a directory's entries.
pub open spec fn children_paths(names: Seq<String>, children: Seq<FsTree>) -> Seq<Seq<char>>
    decreases children, 2int,
{
    if children.len() == 0 || names.len() != children.len() {
        Seq::empty()
    } else {
        child_paths(names[0]@, children[0]) + children_paths(
            names.drop_first(),
            children.drop_first(),
        )
    }
}

/// The paths contributed by one entry: a qualifying file stands under its own
/// name; a non-skipped directory contributes its paths under its name; a
/// skipped directory contributes nothing.
pub open spec fn child_paths(name: Seq<char>, t: FsTree) -> Seq<Seq<char>>
    decreases t, 1int,
{
    match t {
        FsTree::File { content } => if file_qualifies(name, opt_view(content)) {
            seq![name]
        } else {
            Seq::empty()
        },
        _ => if spec_skip_dir(name) {
            Seq::empty()
        } else {
            with_prefix(name, tree_paths(t))
        },
    }
}

/// Extending the walked prefix by one entry extends its paths and walkability
/// entry-wise.
proof fn lemma_children_take_succ(names: Seq<String>, children: Seq<FsTree>, i: int)
    requires
        names.len() == children.len(),
        0 <= i < children.len(),
    ensures
        children_paths(names.take(i + 1), children.take(i + 1)) == children_paths(
            names.take(i),
            children.take(i),
        ) + child_paths(names[i]@, children[i]),
        children_ok(names.take(i + 1), children.take(i + 1)) == (children_ok(
            names.take(i),
            children.take(i),
        ) && child_ok(names[i]@, children[i])),
    decreases i,
{
    if i == 0 {
        let n1 = names.take(1);
        let c1 = children.take(1);
        assert(n1.drop_first() =~= names.take(0));
        assert(c1.drop_first() =~= children.take(0));
        assert(children_paths(names.take(0), children.take(0)) =~= Seq::<Seq<char>>::empty());
        assert(children_paths(n1, c1) =~= child_paths(names[0]@, children[0]));
    } else {
        lemma_children_take_succ(names.drop_first(), children.drop_first(), i - 1);
        assert(names.take(i + 1).drop_first() =~= names.drop_first().take(i));
        assert(children.take(i + 1).drop_first() =~= children.drop_first().take(i));
        assert(names.take(i).drop_first() =~= names.drop_first().take(i - 1));
        assert(children.take(i).drop_first() =~= children.drop_first().take(i - 1));
        assert(names.take(i + 1)[0] == names[0]);
        assert(children.take(i + 1)[0] == children[0]);
        assert(names.take(i)[0] == names[0]);
        assert(children.take(i)[0] == children[0]);
        assert(names.drop_first()[i - 1] == names[i]);
        assert(children.drop_first()[i - 1] == children[i]);
    }
}

/// A walkable directory has only walkable entries.
proof fn lemma_children_ok_index(names: Seq<String>, children: Seq<FsTree>, i: int)
    requires
        names.len() == children.len(),
        children_ok(names, children),
        0 <= i < children.len(),
    ensures
        child_ok(names[i]@, children[i]),
    decreases i,
{
    if i > 0 {
        lemma_children_ok_index(names.drop_first(), children.drop_first(), i - 1);
        assert(names.drop_first()[i - 1] == names[i]);
        assert(children.drop_first()[i - 1] == children[i]);
    }
}

/// Every paired entry of a valid directory is valid.
proof fn lemma_children_wf_index(names: Seq<String>, children: Seq<FsTree>, i: int)
    requires
        names.len() == children.len(),
        children_wf(names, children),
        0 <= i < children.len(),
    ensures
        name_wf(names[i]@),
        tree_wf(children[i]),
    decreases i,
{
    if i > 0 {
        lemma_children_wf_index(names.drop_first(), children.drop_first(), i - 1);
        assert(names.drop_first()[i - 1] == names[i]);
        assert(children.drop_first()[i - 1] == children[i]);
    }
}

/// Joining under a deeper prefix is joining the prefixes first.
proof fn lemma_join_assoc(pre: Seq<char>, name: Seq<char>, ps: Seq<Seq<char>>)
    requires
        name.len() > 0,
    ensures
        with_prefix(pre, with_prefix(name, ps)) =~= with_prefix(join(pre, name), ps),
{
    assert forall|k: int| 0 <= k < ps.len() implies with_prefix(pre, with_prefix(name, ps))[k]
        == with_prefix(join(pre, name), ps)[k] by {
        assert(with_prefix(name, ps)[k] == join(name, ps[k]));
        if pre.len() == 0 {
        } else {
            assert(join(pre, join(name, ps[k])) =~= join(join(pre, name), ps[k]));
        }
    }
}

/// Build `join(prefix, name)` as a string.
fn join_path(prefix: &String, name: &String) -> (r: String)
    ensures
        r@ == join(prefix@, name@),
{
    let mut out = String::new();
    if prefix.as_str().unicode_len() > 0 {
        out.append(prefix.as_str());
        out.append("/");
        proof {
            reveal_strlit("/");
            assert("/"@ =~= seq!['/']);
        }
    }
    out.append(name.as_str());
    proof {
        assert(out@ =~= join(prefix@, name@));
    }
    out
}

/// Depth-first walk of `t`, recording the joined relative paths of the
/// managed documents under `prefix`. Fails — leaving partial output that the
/// caller discards — exactly when a reachable directory is unlistable.
fn walk_tree(t: &FsTree, prefix: &String, out: &mut Vec<String>) -> (ok: bool)
    requires
        tree_wf(*t),
    ensures
        ok == scan_ok(*t),
        ok ==> views_of(final(out)@) == views_of(old(out)@) + with_prefix(prefix@, tree_paths(*t)),
    decreases *t,
{
    match t {
        FsTree::File { .. } => false,
        FsTree::UnreadableDir => false,
        FsTree::Dir { names, children } => {
            let n = children.len();
            let mut i: usize = 0;
            while i < n
                invariant
                    tree_wf(*t),
                    *t == (FsTree::Dir { names: *names, children: *children }),
                    n == children@.len(),
                    names@.len() == n,
                    i <= n,
                    children_ok(names@.take(i as int), children@.take(i as int)),
                    views_of(out@) == views_of(old(out)@) + with_prefix(
                        prefix@,
                        children_paths(names@.take(i as int), children@.take(i as int)),
                    ),
                decreases n - i,
            {
                let name = &names[i];
                let child = &children[i];
                proof {
                    lemma_children_wf_index(names@, children@, i as int);
                    lemma_children_take_succ(names@, children@, i as int);
                }
                match child {
                    FsTree::File { content } => {
                        let named_ok = str_ends_with(name.as_str(), ".md") && !(name.as_str()
                            .unicode_len() > 0 && name.as_str().get_char(0) == '.');
                        let qualifies = if named_ok {
                            match content {
                                Some(c) => is_strata_content(c.as_str()),
                                None => false,
                            }
                        } else {
                            false
                        };
                        if qualifies {
                            let ghost before = out@;
                            let joined = join_path(prefix, name);
                            proof {
                                assert(joined@ == join(prefix@, name@));
                            }
                            out.push(joined);
                            proof {
                                let done = children_paths(
                                    names@.take(i as int),
                                    children@.take(i as int),
                                );
                                assert(name@ == names@[i as int]@);
                                assert(out@ == before.push(joined));
                                assert(views_of(out@) =~~= views_of(before) + seq![join(
                                    prefix@,
                                    name@,
                                )]);
                                assert(child_paths(name@, children@[i as int]) =~~= seq![name@]);
                                assert(with_prefix(prefix@, done + seq![name@]) =~~= with_prefix(
                                    prefix@,
                                    done,
                                ) + seq![join(prefix@, name@)]);
                                assert(views_of(out@) =~~= views_of(old(out)@) + with_prefix(
                                    prefix@,
                                    children_paths(
                                        names@.take(i + 1),
                                        children@.take(i + 1),
                                    ),
                                ));
                            }
                        } else {
                            proof {
                                assert(child_paths(name@, children@[i as int])
                                    =~~= Seq::<Seq<char>>::empty());
                                assert(children_paths(names@.take(i + 1), children@.take(i + 1))
                                    =~~= children_paths(names@.take(i as int), children@.take(i as int)));
                            }
                        }
                    },
                    FsTree::UnreadableDir => {
                        if !should_skip_dir(name.as_str()) {
                            proof {
                                if children_ok(names@, children@) {
                                    lemma_children_ok_index(names@, children@, i as int);
                                }
                            }
                            return false;
                        }
                        proof {
                            assert(child_paths(name@, children@[i as int])
                                =~~= Seq::<Seq<char>>::empty());
                            assert(children_paths(names@.take(i + 1), children@.take(i + 1))
                                =~~= children_paths(names@.take(i as int), children@.take(i as int)));
                        }
                    },
                    FsTree::Dir { .. } => {
                        if !should_skip_dir(name.as_str()) {
                            let child_prefix = join_path(prefix, name);
                            proof {
                                assert(decreases_to!(*t => *children));
                                assert(decreases_to!(*children => children@));
                                assert(decreases_to!(children@ => children@[i as int]));
                                assert(decreases_to!(*t => children@[i as int]));
                            }
                            let sub_ok = walk_tree(child, &child_prefix, out);
                            if !sub_ok {
                                proof {
                                    if children_ok(names@, children@) {
                                        lemma_children_ok_index(names@, children@, i as int);
                                    }
                                }
                                return false;
                            }
                            proof {
                                let tp = tree_paths(children@[i as int]);
                                let done = children_paths(
                                    names@.take(i as int),
                                    children@.take(i as int),
                                );
                                lemma_join_assoc(prefix@, name@, tp);
                                assert(child_paths(name@, children@[i as int]) == with_prefix(
                                    name@,
                                    tp,
                                ));
                                assert(with_prefix(prefix@, done + with_prefix(name@, tp)) =~~=
                                    with_prefix(prefix@, done) + with_prefix(
                                    prefix@,
                                    with_prefix(name@, tp),
                                ));
                                assert(views_of(out@) =~~= views_of(old(out)@) + with_prefix(
                                    prefix@,
                                    children_paths(
                                        names@.take(i + 1),
                                        children@.take(i + 1),
                                    ),
                                ));
                            }
                        } else {
                            proof {
                                assert(child_paths(name@, children@[i as int])
                                    =~~= Seq::<Seq<char>>::empty());
                                assert(children_paths(names@.take(i + 1), children@.take(i + 1))
                                    =~~= children_paths(names@.take(i as int), children@.take(i as int)));
                            }
                        }
                    },
                }
                i += 1;
            }
            proof {
                assert(names@.take(n as int) =~= names@);
                assert(children@.take(n as int) =~= children@);
            }
            true
        },
    }
}

/// A listed path is clean: non-empty, forward slashes only, and free of
/// segments the skip policy excludes.
pub open spec fn path_clean(p: Seq<char>) -> bool {
    &&& p.len() > 0
    &&& (forall|k: int| 0 <= k < p.len() ==> !crate::paths::is_sep(p[k]) || p[k] == '/')
    &&& !crate::paths::has_skipped_segment(p)
}

/// Every path of the batch is clean.
pub open spec fn all_clean(ps: Seq<Seq<char>>) -> bool {
    forall|i: int| 0 <= i < ps.len() ==> path_clean(#[trigger] ps[i])
}

/// A name that qualifies a file is never one the skip policy excludes: it
/// carries the managed extension, which no deny-listed name does, and it does
/// not start with the hidden-file marker.
proof fn lemma_qualifying_name_not_skipped(name: Seq<char>)
    requires
        is_suffix_of(".md"@, name),
        !(name.len() > 0 && name[0] == '.'),
    ensures
        !spec_skip_dir(name),
{
    reveal_strlit(".md");
    reveal_strlit("node_modules");
    reveal_strlit("target");
    reveal_strlit("__pycache__");
    assert(name.subrange(name.len() - 3, name.len() as int)[0] == name[name.len() - 3]);
    assert(name[name.len() - 3] == '.');
    if name == "node_modules"@ {
        assert(name[9] == 'l');
        assert(false);
    }
    if name == "target"@ {
        assert(name[3] == 'g');
        assert(false);
    }
    if name == "__pycache__"@ {
        assert(name[8] == 'e');
        assert(false);
    }
}

/// Every path under a valid tree is clean.
pub proof fn lemma_tree_paths_clean(t: FsTree)
    requires
        tree_wf(t),
    ensures
        all_clean(tree_paths(t)),
    decreases t, 0int,
{
    match t {
        FsTree::File { .. } => {},
        FsTree::UnreadableDir => {},
        FsTree::Dir { names, children } => {
            lemma_children_paths_clean(names@, children@);
        },
    }
}

/// Every path under the valid entries of a directory is clean.
proof fn lemma_children_paths_clean(names: Seq<String>, children: Seq<FsTree>)
    requires
        names.len() == children.len(),
        children_wf(names, children),
    ensures
        all_clean(children_paths(names, children)),
    decreases children, 2int,
{
    if children.len() > 0 {
        lemma_child_paths_clean(names[0]@, children[0]);
        lemma_children_paths_clean(names.drop_first(), children.drop_first());
        let head = child_paths(names[0]@, children[0]);
        let rest = children_paths(names.drop_first(), children.drop_first());
        assert forall|i: int| 0 <= i < (head + rest).len() implies path_clean(
            #[trigger] (head + rest)[i],
        ) by {
            if i < head.len() {
                assert((head + rest)[i] == head[i]);
            } else {
                assert((head + rest)[i] == rest[i - head.len()]);
            }
        }
    }
}

/// Every path under one valid entry is clean.
proof fn lemma_child_paths_clean(name: Seq<char>, t: FsTree)
    requires
        name_wf(name),
        tree_wf(t),
    ensures
        all_clean(child_paths(name, t)),
    decreases t, 1int,
{
    match t {
        FsTree::File { content } => {
            if file_qualifies(name, opt_view(content)) {
                lemma_qualifying_name_not_skipped(name);
                crate::paths::lemma_name_no_skipped(name);
                assert(child_paths(name, t)[0] == name);
            }
        },
        _ => {
            if !spec_skip_dir(name) {
                lemma_tree_paths_clean(t);
                let tp = tree_paths(t);
                assert forall|i: int| 0 <= i < with_prefix(name, tp).len() implies path_clean(
                    #[trigger] with_prefix(name, tp)[i],
                ) by {
                    assert(path_clean(tp[i]));
                    assert(with_prefix(name, tp)[i] == join(name, tp[i]));
                    crate::paths::lemma_join_no_skipped(name, tp[i]);
                    let p = name + seq!['/'] + tp[i];
                    assert forall|k: int|
                        0 <= k < p.len() implies !crate::paths::is_sep(p[k]) || p[k] == '/' by {
                        if k < name.len() {
                            assert(p[k] == name[k]);
                        } else if k == name.len() {
                            assert(p[k] == '/');
                        } else {
                            assert(p[k] == tp[i][k - name.len() - 1]);
                        }
                    }
                }
            }
        },
    }
}

/// Law: the scanner's listing never reaches under a skipped directory and is
/// already slash-normalized. Every path it returns is non-empty, uses only
/// forward slashes as separators, and has no separator-delimited segment that
/// the skip policy excludes — files under hidden or deny-listed directories
/// are absent.
pub proof fn lemma_listing_clean(root: FsTree, vs: Seq<Seq<char>>)
    requires
        tree_wf(root),
        vs.to_multiset() == tree_paths(root).to_multiset(),
    ensures
        forall|i: int| 0 <= i < vs.len() ==> path_clean(#[trigger] vs[i]),
{
    lemma_tree_paths_clean(root);
    assert forall|i: int| 0 <= i < vs.len() implies path_clean(#[trigger] vs[i]) by {
        vstd::seq_lib::to_multiset_contains(vs, vs[i]);
        vstd::seq_lib::to_multiset_contains(tree_paths(root), vs[i]);
        assert(vs.contains(vs[i]));
        assert(tree_paths(root).contains(vs[i]));
        let j = choose|j: int| 0 <= j < tree_paths(root).len() && tree_paths(root)[j] == vs[i];
        assert(path_clean(tree_paths(root)[j]));
    }
}

/// List the managed documents under the workspace image `root`: the
/// lexicographically sorted, slash-normalized relative path of every
/// qualifying file reachable without entering a skipped directory. Fails —
/// with no partial result — exactly when the root or a reachable directory
/// cannot be listed.
pub fn list_workspace_files(root: &FsTree) -> (r: Result<Vec<String>, ScanError>)
    requires
        tree_wf(*root),
    ensures
        r is Ok <==> scan_ok(*root),
        match r {
            Ok(v) => sorted_by(views_of(v@), lex_leq_rel()) && views_of(v@).to_multiset()
                == tree_paths(*root).to_multiset() && all_clean(views_of(v@)),
            Err(e) => !scan_ok(*root) && e == ScanError::UnlistableDirectory,
        },
{
    match root {
        FsTree::Dir { .. } => {
            let mut out: Vec<String> = Vec::new();
            let empty_prefix = String::new();
            let ok = walk_tree(root, &empty_prefix, &mut out);
            if !ok {
                return Err(ScanError::UnlistableDirectory);
            }
            proof {
                assert(views_of(out@) =~~= with_prefix(empty_prefix@, tree_paths(*root)));
                assert(with_prefix(empty_prefix@, tree_paths(*root)) =~~= tree_paths(*root));
            }
            sort_strings(&mut out);
            proof {
                lemma_listing_clean(*root, views_of(out@));
            }
            Ok(out)
        },
        _ => Err(ScanError::UnlistableDirectory),
    }
}

} // verus!
