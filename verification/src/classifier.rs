//! The document classifier: a file's content qualifies it as a managed
//! document when a frontmatter block at the very start of the file carries
//! the document-type marker.
//!
//! The block is the text strictly between an opening delimiter line (`---`
//! followed by a newline) at offset zero and the first closing delimiter line
//! (`---` preceded by a newline) after it. The marker must stand on its own
//! line inside that block, up to surrounding whitespace; occurrences anywhere
//! else in the file do not count.

use vstd::prelude::*;
use vstd::string::StrSliceExecFns;

use crate::text::{
    find_from, find_str, is_prefix_of, lemma_find_from, occurs_at, str_starts_with, trim_spec,
    trimmed_range_eq,
};

verus! {

/// The document-type marker.
pub open spec fn marker_plain() -> Seq<char> {
    "doc-type: strata"@
}

/// The document-type marker with the quoted value variant.
pub open spec fn marker_quoted() -> Seq<char> {
    "doc-type: \"strata\""@
}

/// A trimmed line equal to either marker variant.
pub open spec fn is_marker_text(t: Seq<char>) -> bool {
    t == marker_plain() || t == marker_quoted()
}

/// `[i, j)` is a full line of `s`: it touches the start of `s` or follows a
/// newline, contains no newline, and touches the end of `s` or is ended by a
/// newline.
pub open spec fn line_at(s: Seq<char>, i: int, j: int) -> bool {
    &&& 0 <= i <= j <= s.len()
    &&& (i == 0 || s[i - 1] == '\n')
    &&& (forall|k: int| i <= k < j ==> s[k] != '\n')
    &&& (j == s.len() || s[j] == '\n')
}

/// Some line of `s`, trimmed, is the document-type marker.
pub open spec fn has_marker_line(s: Seq<char>) -> bool {
    exists|i: int, j: int| line_at(s, i, j) && is_marker_text(trim_spec(s.subrange(i, j)))
}

/// The content starts with an opening delimiter line.
pub open spec fn has_opening(c: Seq<char>) -> bool {
    is_prefix_of("---\n"@, c) || is_prefix_of("---\r\n"@, c)
}

/// Length of the opening delimiter line, both line-ending conventions.
pub open spec fn opening_len(c: Seq<char>) -> int {
    if is_prefix_of("---\r\n"@, c) {
        5
    } else {
        4
    }
}

/// The closing delimiter: a delimiter line preceded by a newline.
pub open spec fn closing_pat() -> Seq<char> {
    "\n---"@
}

/// The content qualifies as a managed document: it has the opening delimiter
/// at offset zero, a closing delimiter after it, and a marker line strictly
/// between the two.
pub open spec fn is_managed(c: Seq<char>) -> bool {
    &&& has_opening(c)
    &&& match find_from(c, closing_pat(), opening_len(c)) {
        Some(j) => has_marker_line(c.subrange(opening_len(c), j)),
        None => false,
    }
}

/// Scan the lines of `s[lo..hi]` for one whose trimmed text is the marker.
fn block_has_marker_line(s: &str, lo: usize, hi: usize) -> (r: bool)
    requires
        lo <= hi,
        hi <= s@.len(),
    ensures
        r == has_marker_line(s@.subrange(lo as int, hi as int)),
{
    let ghost b = s@.subrange(lo as int, hi as int);
    let mut ls: usize = lo;
    let mut pos: usize = lo;
    while pos < hi
        invariant
            lo <= ls <= pos <= hi,
            hi <= s@.len(),
            b == s@.subrange(lo as int, hi as int),
            ls == lo || s@[ls - 1] == '\n',
            forall|k: int| ls <= k < pos ==> s@[k] != '\n',
            forall|i2: int, j2: int|
                line_at(b, i2, j2) && j2 < pos - lo ==> !is_marker_text(
                    trim_spec(b.subrange(i2, j2)),
                ),
        decreases hi - pos,
    {
        let c = s.get_char(pos);
        if c == '\n' {
            let hit = if trimmed_range_eq(s, ls, pos, "doc-type: strata") {
                true
            } else {
                trimmed_range_eq(s, ls, pos, "doc-type: \"strata\"")
            };
            proof {
                assert(b.subrange(ls - lo, pos - lo) =~= s@.subrange(ls as int, pos as int));
            }
            if hit {
                proof {
                    assert forall|k: int| ls - lo <= k < pos - lo implies b[k] != '\n' by {
                        assert(b[k] == s@[lo + k]);
                    }
                    assert(b[pos - lo] == s@[pos as int]);
                    if ls - lo > 0 {
                        assert(b[ls - lo - 1] == s@[ls - 1]);
                    }
                    assert(line_at(b, ls - lo, pos - lo));
                }
                return true;
            }
            proof {
                assert forall|i2: int, j2: int|
                    line_at(b, i2, j2) && j2 < pos + 1 - lo implies !is_marker_text(
                    trim_spec(b.subrange(i2, j2)),
                ) by {
                    if j2 == pos - lo {
                        // the only line ending here starts at the tracked start
                        if i2 < ls - lo {
                            assert(b[ls - lo - 1] == s@[ls - 1]);
                            assert(false);
                        }
                        if i2 > ls - lo {
                            assert(b[i2 - 1] == s@[lo + i2 - 1]);
                            assert(false);
                        }
                        assert(i2 == ls - lo);
                    }
                }
            }
            ls = pos + 1;
        } else {
            proof {
                assert forall|i2: int, j2: int|
                    line_at(b, i2, j2) && j2 < pos + 1 - lo implies !is_marker_text(
                    trim_spec(b.subrange(i2, j2)),
                ) by {
                    if j2 == pos - lo {
                        assert(b[j2] == s@[pos as int]);
                        assert(false);
                    }
                }
            }
        }
        pos += 1;
    }
    // the final, unterminated line
    let hit = if trimmed_range_eq(s, ls, hi, "doc-type: strata") {
        true
    } else {
        trimmed_range_eq(s, ls, hi, "doc-type: \"strata\"")
    };
    proof {
        assert(b.subrange(ls - lo, hi - lo) =~= s@.subrange(ls as int, hi as int));
    }
    if hit {
        proof {
            assert forall|k: int| ls - lo <= k < hi - lo implies b[k] != '\n' by {
                assert(b[k] == s@[lo + k]);
            }
            if ls - lo > 0 {
                assert(b[ls - lo - 1] == s@[ls - 1]);
            }
            assert(line_at(b, ls - lo, hi - lo));
        }
        return true;
    }
    proof {
        assert forall|i2: int, j2: int| line_at(b, i2, j2) implies !is_marker_text(
            trim_spec(b.subrange(i2, j2)),
        ) by {
            if j2 == hi - lo {
                if i2 < ls - lo {
                    assert(b[ls - lo - 1] == s@[ls - 1]);
                    assert(false);
                }
                if i2 > ls - lo {
                    assert(b[i2 - 1] == s@[lo + i2 - 1]);
                    assert(false);
                }
                assert(i2 == ls - lo);
            }
        }
    }
    false
}

/// Decide whether file content carries the frontmatter marker of a managed
/// document.
pub fn is_strata_content(content: &str) -> (r: bool)
    ensures
        r == is_managed(content@),
{
    let crlf = str_starts_with(content, "---\r\n");
    let lf = str_starts_with(content, "---\n");
    if !crlf && !lf {
        return false;
    }
    let after: usize = if crlf {
        5
    } else {
        4
    };
    match find_str(content, "\n---", after) {
        None => false,
        Some(j) => {
            proof {
                lemma_find_from(content@, "\n---"@, after as int);
            }
            block_has_marker_line(content, after, j)
        },
    }
}

/// A marker line strictly between the opening delimiter and the first closing
/// delimiter makes the content a managed document.
pub proof fn lemma_marker_between_delimiters(c: Seq<char>, j: int)
    requires
        has_opening(c),
        find_from(c, closing_pat(), opening_len(c)) == Some(j),
        has_marker_line(c.subrange(opening_len(c), j)),
    ensures
        is_managed(c),
{
}

/// One concrete line of the block whose trimmed text is the marker qualifies
/// the content.
pub proof fn lemma_marker_line_qualifies(c: Seq<char>, j: int, li: int, lj: int)
    requires
        has_opening(c),
        find_from(c, closing_pat(), opening_len(c)) == Some(j),
        line_at(c.subrange(opening_len(c), j), li, lj),
        is_marker_text(trim_spec(c.subrange(opening_len(c), j).subrange(li, lj))),
    ensures
        is_managed(c),
{
}

/// With the opening delimiter present, a closing delimiter anywhere after it
/// is found by the first-occurrence search.
pub proof fn lemma_closing_found(c: Seq<char>, k: int)
    requires
        opening_len(c) <= k,
        occurs_at(c, closing_pat(), k),
    ensures
        find_from(c, closing_pat(), opening_len(c)) is Some,
{
    lemma_find_from(c, closing_pat(), opening_len(c));
}

/// Without any closing delimiter the content is not a managed document, no
/// matter what the body holds.
pub proof fn lemma_no_closing_not_managed(c: Seq<char>)
    requires
        forall|k: int| opening_len(c) <= k ==> !occurs_at(c, closing_pat(), k),
    ensures
        !is_managed(c),
{
    lemma_find_from(c, closing_pat(), opening_len(c));
    if find_from(c, closing_pat(), opening_len(c)) is Some {
        let j = find_from(c, closing_pat(), opening_len(c))->Some_0;
        assert(occurs_at(c, closing_pat(), j));
    }
}

/// A marker that stands only outside the bounded block does not qualify the
/// content: the block's own lines decide alone.
pub proof fn lemma_marker_outside_block(c: Seq<char>, j: int)
    requires
        find_from(c, closing_pat(), opening_len(c)) == Some(j),
        !has_marker_line(c.subrange(opening_len(c), j)),
    ensures
        !is_managed(c),
{
}

} // verus!
