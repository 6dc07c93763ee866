//! The write-guard: a registry of absolute paths the application is about to
//! write itself. A raw notification whose path is found here is an echo of a
//! self-initiated write and is suppressed; each entry is single-use.

use vstd::prelude::*;

use crate::text::str_eq;

verus! {

/// Registry of paths marked as "about to be self-written".
///
/// Each entry is single-use: the first consuming notification removes it.
/// More than one raw notification for a single logical write therefore lets
/// the later ones pass through as apparently external changes; full causal
/// tracking is out of reach because the notification source exposes no
/// identity to correlate on.
pub struct WriteGuard {
    paths: Vec<String>,
}

impl WriteGuard {
    /// The set of marked paths.
    pub closed spec fn view(&self) -> Set<Seq<char>> {
        Set::new(|p: Seq<char>| exists|i: int| 0 <= i < self.paths@.len() && self.paths@[i]@ == p)
    }

    /// No path is held twice.
    pub closed spec fn wf(&self) -> bool {
        forall|i: int, j: int|
            0 <= i < j < self.paths@.len() ==> self.paths@[i]@ != self.paths@[j]@
    }

    /// An empty guard.
    pub fn new() -> (g: WriteGuard)
        ensures
            g.wf(),
            g@ == Set::<Seq<char>>::empty(),
    {
        let g = WriteGuard { paths: Vec::new() };
        proof {
            assert(g@ =~= Set::<Seq<char>>::empty());
        }
        g
    }

    /// Position of `path` in the registry, if present.
    fn position_of(&self, path: &str) -> (r: Option<usize>)
        ensures
            match r {
                Some(i) => i < self.paths@.len() && self.paths@[i as int]@ == path@,
                None => !self@.contains(path@),
            },
    {
        let n = self.paths.len();
        let mut i: usize = 0;
        while i < n
            invariant
                n == self.paths@.len(),
                i <= n,
                forall|k: int| 0 <= k < i ==> self.paths@[k]@ != path@,
            decreases n - i,
        {
            if str_eq(self.paths[i].as_str(), path) {
                return Some(i);
            }
            i += 1;
        }
        None
    }

    /// Record `path` as about to be self-written. Marking an already marked
    /// path changes nothing: the registry is a set.
    pub fn mark(&mut self, path: &str)
        requires
            old(self).wf(),
        ensures
            final(self).wf(),
            final(self)@ == old(self)@.insert(path@),
    {
        let found = self.position_of(path);
        match found {
            Some(_) => {
                proof {
                    assert(self@.contains(path@));
                    assert(self@ =~= old(self)@.insert(path@));
                }
            },
            None => {
                let owned = path.to_owned();
                self.paths.push(owned);
                proof {
                    assert forall|i: int, j: int|
                        0 <= i < j < self.paths@.len() implies self.paths@[i]@ != self.paths@[j]@
                        by {
                        if j < self.paths@.len() - 1 {
                            assert(old(self).paths@[i]@ != old(self).paths@[j]@);
                        } else {
                            if old(self).paths@[i]@ == path@ {
                                assert(old(self)@.contains(path@));
                            }
                        }
                    }
                    assert forall|p: Seq<char>| self@.contains(p) implies old(self)@.insert(
                        path@,
                    ).contains(p) by {
                        let i = choose|i: int|
                            0 <= i < self.paths@.len() && self.paths@[i]@ == p;
                        if i < self.paths@.len() - 1 {
                            assert(old(self).paths@[i]@ == p);
                        }
                    }
                    assert forall|p: Seq<char>| old(self)@.insert(path@).contains(p) implies self@
                        .contains(p) by {
                        if p == path@ {
                            assert(self.paths@[self.paths@.len() - 1]@ == p);
                        } else {
                            let i = choose|i: int|
                                0 <= i < old(self).paths@.len() && old(self).paths@[i]@ == p;
                            assert(self.paths@[i]@ == p);
                        }
                    }
                    assert(self@ =~= old(self)@.insert(path@));
                }
            },
        }
    }

    /// Remove `path` and report whether it was present: `true` means the
    /// notification is a self-write echo and must be suppressed, `false`
    /// means the change is treated as external.
    pub fn consume(&mut self, path: &str) -> (r: bool)
        requires
            old(self).wf(),
        ensures
            final(self).wf(),
            r == old(self)@.contains(path@),
            final(self)@ == old(self)@.remove(path@),
    {
        let found = self.position_of(path);
        match found {
            None => {
                proof {
                    assert(self@ =~= old(self)@.remove(path@));
                }
                false
            },
            Some(i) => {
                let _ = self.paths.remove(i);
                proof {
                    let n = self.paths@.len() as int;
                    assert forall|a: int| 0 <= a < n implies self.paths@[a] == (if a < i {
                        old(self).paths@[a]
                    } else {
                        old(self).paths@[a + 1]
                    }) by {}
                    assert forall|a: int, b: int|
                        0 <= a < b < n implies self.paths@[a]@ != self.paths@[b]@ by {}
                    assert forall|p: Seq<char>| self@.contains(p) implies old(self)@.remove(
                        path@,
                    ).contains(p) by {
                        let k = choose|k: int| 0 <= k < n && self.paths@[k]@ == p;
                        if k < i {
                            assert(old(self).paths@[k]@ == p);
                        } else {
                            assert(old(self).paths@[k + 1]@ == p);
                        }
                    }
                    assert forall|p: Seq<char>| old(self)@.remove(path@).contains(p) implies self@
                        .contains(p) by {
                        let k = choose|k: int|
                            0 <= k < old(self).paths@.len() && old(self).paths@[k]@ == p;
                        if k < i {
                            assert(self.paths@[k]@ == p);
                        } else {
                            assert(old(self).paths@[i as int]@ == path@);
                            assert(k != i);
                            assert(self.paths@[k - 1]@ == p);
                        }
                    }
                    assert(self@ =~= old(self)@.remove(path@));
                    assert(old(self)@.contains(path@));
                }
                true
            },
        }
    }

}

/// Law: a mark suppresses exactly one notification. After `mark(p)` the
/// registry holds `p`, so the first `consume(p)` reports a self-write; it
/// leaves `p` absent, so a second `consume(p)` without a new mark reports an
/// external change.
pub proof fn lemma_mark_is_single_use(marked: Set<Seq<char>>, p: Seq<char>)
    ensures
        marked.insert(p).contains(p),
        !marked.insert(p).remove(p).contains(p),
{
}

} // verus!
