//! The filesystem watcher pipeline: every raw OS notification is filtered by
//! name and location, checked against the write-guard, and classified into at
//! most one domain event. A session state machine keeps at most one active
//! watch root.

use vstd::prelude::*;
use vstd::string::StrSliceExecFns;

use crate::classifier::{is_managed, is_strata_content};
use crate::guard::WriteGuard;
use crate::paths::{
    any_segment_skipped, file_name, file_name_of, has_skipped_segment, norm_seps,
    normalize_separators, rel_of, strip_root,
};
use crate::text::is_suffix_of;

verus! {

/// The kind a raw OS notification carries.
#[derive(Clone, Copy, PartialEq, Eq, Debug)]
pub enum RawEventKind {
    Create,
    Modify,
    Remove,
    Other,
}

/// A classified domain event; the path is workspace-relative and
/// slash-normalized.
#[derive(PartialEq, Eq, Debug)]
pub enum FsChangeEvent {
    Created { rel_path: String },
    Modified { rel_path: String },
    Deleted { rel_path: String },
}

/// Mathematical model of a domain event.
pub enum FsChange {
    Created(Seq<char>),
    Modified(Seq<char>),
    Deleted(Seq<char>),
}

impl View for FsChangeEvent {
    type V = FsChange;

    open spec fn view(&self) -> FsChange {
        match self {
            FsChangeEvent::Created { rel_path } => FsChange::Created(rel_path@),
            FsChangeEvent::Modified { rel_path } => FsChange::Modified(rel_path@),
            FsChangeEvent::Deleted { rel_path } => FsChange::Deleted(rel_path@),
        }
    }
}

/// Model of an optional event.
pub open spec fn opt_event_view(ev: Option<FsChangeEvent>) -> Option<FsChange> {
    match ev {
        Some(e) => Some(e@),
        None => None,
    }
}

/// The structural pre-filter: the notified path must name a file with the
/// managed extension whose name does not start with the hidden-file marker.
pub open spec fn prefilter_ok(path: Seq<char>) -> bool {
    match file_name_of(path) {
        Some(n) => is_suffix_of(".md"@, n) && !(n.len() > 0 && n[0] == '.'),
        None => false,
    }
}

/// The workspace-relative path a raw notification is processed under: the
/// pre-filter must pass, the path must lie under `root`, and no segment may
/// fall to the skip-directory policy.
pub open spec fn screened(root: Seq<char>, path: Seq<char>) -> Option<Seq<char>> {
    if !prefilter_ok(path) {
        None
    } else {
        match rel_of(root, path) {
            None => None,
            Some(rel) => if has_skipped_segment(rel) {
                None
            } else {
                Some(rel)
            },
        }
    }
}

/// Current file content qualifies as a managed document; unreadable content
/// degrades to "not a document".
pub open spec fn content_qualifies(content: Option<&str>) -> bool {
    match content {
        Some(c) => is_managed(c@),
        None => false,
    }
}

/// The event a screened, unsuppressed notification produces: creation and
/// modification report only currently qualifying files, removal is always
/// reported, other kinds are dropped.
pub open spec fn classified_event(kind: RawEventKind, qualifies: bool, rel: Seq<char>) -> Option<
    FsChange,
> {
    match kind {
        RawEventKind::Create => if qualifies {
            Some(FsChange::Created(rel))
        } else {
            None
        },
        RawEventKind::Modify => if qualifies {
            Some(FsChange::Modified(rel))
        } else {
            None
        },
        RawEventKind::Remove => Some(FsChange::Deleted(rel)),
        RawEventKind::Other => None,
    }
}

/// Process one raw notification: filter, deduplicate against the write-guard,
/// classify, and emit at most one domain event.
///
/// `content` is the file's current content, `None` when it cannot be read;
/// only creation and modification consult it. The write-guard is consulted —
/// and an entry consumed — only for notifications that pass the filters.
pub fn process_notification(
    root: &str,
    path: &str,
    kind: RawEventKind,
    content: Option<&str>,
    guard: &mut WriteGuard,
) -> (ev: Option<FsChangeEvent>)
    requires
        old(guard).wf(),
    ensures
        final(guard).wf(),
        match screened(root@, path@) {
            None => ev is None && final(guard)@ == old(guard)@,
            Some(rel) => if old(guard)@.contains(path@) {
                ev is None && final(guard)@ == old(guard)@.remove(path@)
            } else {
                final(guard)@ == old(guard)@ && opt_event_view(ev) == classified_event(
                    kind,
                    content_qualifies(content),
                    norm_seps(rel),
                )
            },
        },
{
    let name = match file_name(path) {
        Some(n) => n,
        None => {
            return None;
        },
    };
    if !crate::text::str_ends_with(name, ".md") {
        return None;
    }
    if name.unicode_len() > 0 && name.get_char(0) == '.' {
        return None;
    }
    let rel = match strip_root(root, path) {
        Some(r) => r,
        None => {
            return None;
        },
    };
    if any_segment_skipped(rel) {
        return None;
    }
    let suppressed = guard.consume(path);
    if suppressed {
        return None;
    }
    proof {
        assert(old(guard)@.remove(path@) =~= old(guard)@);
    }
    let norm = normalize_separators(rel);
    match kind {
        RawEventKind::Create => {
            let qualifies = match content {
                Some(c) => is_strata_content(c),
                None => false,
            };
            if qualifies {
                Some(FsChangeEvent::Created { rel_path: norm })
            } else {
                None
            }
        },
        RawEventKind::Modify => {
            let qualifies = match content {
                Some(c) => is_strata_content(c),
                None => false,
            };
            if qualifies {
                Some(FsChangeEvent::Modified { rel_path: norm })
            } else {
                None
            }
        },
        RawEventKind::Remove => Some(FsChangeEvent::Deleted { rel_path: norm }),
        RawEventKind::Other => None,
    }
}

/// Law: once a notification passes the filters and is not a self-write echo,
/// a removal always yields exactly one `Deleted` event — its content can no
/// longer be read, so no classification is attempted.
pub proof fn lemma_removal_always_reported(content: Option<&str>, rel: Seq<char>)
    ensures
        classified_event(RawEventKind::Remove, content_qualifies(content), rel) == Some(
            FsChange::Deleted(rel),
        ),
{
}

/// Law: a file whose content does not qualify produces no event on creation
/// or modification, and one whose content qualifies produces exactly one
/// event of the matching kind.
pub proof fn lemma_classification_gates_events(kind: RawEventKind, rel: Seq<char>)
    ensures
        classified_event(kind, false, rel) == (if kind == RawEventKind::Remove {
            Some(FsChange::Deleted(rel))
        } else {
            None::<FsChange>
        }),
        classified_event(RawEventKind::Create, true, rel) == Some(FsChange::Created(rel)),
        classified_event(RawEventKind::Modify, true, rel) == Some(FsChange::Modified(rel)),
{
}

/// Law: what the watcher lets through is exactly what a fresh scan would be
/// willing to see — the name pre-filter passed, the path lies under the root,
/// and no segment of the relative path falls to the same skip-directory
/// policy the scanner applies.
pub proof fn lemma_screened_matches_scan_policy(root: Seq<char>, path: Seq<char>, rel: Seq<char>)
    requires
        screened(root, path) == Some(rel),
    ensures
        prefilter_ok(path),
        rel_of(root, path) == Some(rel),
        !has_skipped_segment(rel),
{
}

/// The binding between a watch root and the live OS-level subscription. At
/// most one session is active per service; starting a new one releases the
/// old one unconditionally.
pub struct WatchSession {
    root: Option<String>,
}

/// The root a start settles on, whatever was active before: the prior session
/// is always released first.
pub open spec fn session_after_start(
    prev: Option<Seq<char>>,
    root: Seq<char>,
    attached: bool,
) -> Option<Seq<char>> {
    if attached {
        Some(root)
    } else {
        None
    }
}

impl WatchSession {
    /// The root currently watched, if any.
    pub closed spec fn view(&self) -> Option<Seq<char>> {
        match self.root {
            Some(r) => Some(r@),
            None => None,
        }
    }

    /// A session that watches nothing.
    pub fn new() -> (s: WatchSession)
        ensures
            s@ is None,
    {
        WatchSession { root: None }
    }

    /// Record the outcome of a start: the prior session is torn down in any
    /// case; on a successful OS attach the new root is live, on failure the
    /// session stays idle.
    pub fn start(&mut self, root: String, attached: bool)
        ensures
            final(self)@ == session_after_start(old(self)@, root@, attached),
    {
        if attached {
            self.root = Some(root);
        } else {
            self.root = None;
        }
    }

    /// Drop the session: watching stops; stopping an idle session is a no-op.
    pub fn stop(&mut self)
        ensures
            final(self)@ is None,
    {
        self.root = None;
    }

    /// Whether a session is live.
    pub fn is_watching(&self) -> (b: bool)
        ensures
            b == (self@ is Some),
    {
        match self.root {
            Some(_) => true,
            None => false,
        }
    }

    /// The root currently watched.
    pub fn current_root(&self) -> (r: Option<&String>)
        ensures
            match r {
                Some(s) => self@ == Some(s@),
                None => self@ is None,
            },
    {
        match &self.root {
            Some(s) => Some(s),
            None => None,
        }
    }
}

/// Law: two successful starts in a row leave exactly one active session,
/// bound to the second root; the first root is no longer watched.
pub proof fn lemma_second_start_wins(
    initial: Option<Seq<char>>,
    root_a: Seq<char>,
    root_b: Seq<char>,
)
    ensures
        session_after_start(session_after_start(initial, root_a, true), root_b, true) == Some(
            root_b,
        ),
        root_a != root_b ==> session_after_start(
            session_after_start(initial, root_a, true),
            root_b,
            true,
        ) != Some(root_a),
{
}

} // verus!
