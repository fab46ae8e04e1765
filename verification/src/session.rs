//! Snapshots and registers of each session.

use crate::format::file_tag;
use crate::normalize::{lf_text, normalize_to_lf, strip_bom, without_bom};
use crate::snapshots::{
    empty_store, head_of, history, opt_lines, recorded, SnapshotStore, StoreView,
};
use crate::string_map::StringMap;
use crate::text::byte_len;
use crate::types::{
    empty_clipboard, Clipboard, ClipboardView, DEFAULT_MAX_PATHS, DEFAULT_MAX_VERSIONS_PER_PATH,
    SNAPSHOT_MAX_BYTES,
};
use vstd::prelude::*;

verus! {

/// What one session has recorded.
pub struct SessionState {
    pub snapshots: SnapshotStore,
    pub clipboard: Clipboard,
}

#[verifier::ext_equal]
pub struct SessionView {
    pub store: StoreView,
    pub clip: ClipboardView,
}

impl View for SessionState {
    type V = SessionView;

    open spec fn view(&self) -> SessionView {
        SessionView { store: self.snapshots@, clip: self.clipboard@ }
    }
}

/// The sessions by their names.
pub struct Sessions {
    states: StringMap<SessionState>,
}

pub open spec fn state_views(m: Map<Seq<char>, SessionState>) -> Map<Seq<char>, SessionView> {
    m.map_values(|s: SessionState| s@)
}

impl View for Sessions {
    type V = Map<Seq<char>, SessionView>;

    closed spec fn view(&self) -> Map<Seq<char>, SessionView> {
        state_views(self.states@)
    }
}

/// A session that has recorded nothing.
pub open spec fn new_session() -> SessionView {
    SessionView {
        store: empty_store(DEFAULT_MAX_PATHS as nat, DEFAULT_MAX_VERSIONS_PER_PATH as nat),
        clip: empty_clipboard(),
    }
}

/// The state of a session; one that has not been named before is new.
pub open spec fn session_of(sessions: Map<Seq<char>, SessionView>, id: Seq<char>) -> SessionView {
    if sessions.contains_key(id) {
        sessions[id]
    } else {
        new_session()
    }
}

/// The text that is recorded for the contents of a file.
pub open spec fn recorded_text(text: Seq<char>) -> Seq<char> {
    lf_text(without_bom(text))
}

/// Whether the contents of a file are small enough to be recorded.
pub open spec fn fits_snapshot(text: Seq<char>) -> bool {
    byte_len(text) <= SNAPSHOT_MAX_BYTES
}

impl SessionState {
    pub fn new() -> (r: Self)
        ensures
            r@ == new_session(),
    {
        SessionState { snapshots: SnapshotStore::new(), clipboard: Clipboard::default() }
    }

    /// Record a read/write snapshot and return the tag, or `None` when the file is over cap.
    pub fn record(&mut self, path: &str, text: &str, seen_lines: Option<&[usize]>) -> (r: Option<
        String,
    >)
        ensures
            match r {
                None => !fits_snapshot(text@) && final(self)@ == old(self)@,
                Some(tag) => {
                    &&& fits_snapshot(text@)
                    &&& tag@ == file_tag(recorded_text(text@))
                    &&& final(self)@ == (SessionView {
                        store: recorded(
                            old(self)@.store,
                            path@,
                            recorded_text(text@),
                            opt_lines(seen_lines),
                        ),
                        ..old(self)@
                    })
                },
            },
    {
        if text.as_bytes().len() > SNAPSHOT_MAX_BYTES {
            return None;
        }
        let normalized = normalize_to_lf(strip_bom(text).1);
        Some(self.snapshots.record(path, normalized.as_str(), seen_lines))
    }
}

impl Sessions {
    pub fn new() -> (r: Self)
        ensures
            r@ == Map::<Seq<char>, SessionView>::empty(),
    {
        let r = Sessions { states: StringMap::new() };
        proof {
            assert(r@ =~= Map::<Seq<char>, SessionView>::empty());
        }
        r
    }
}

/// The state of a session, which begins where it is named first.
pub fn with_session<'a>(sessions: &'a mut Sessions, session_id: &str) -> (r: &'a mut SessionState)
    ensures
        r@ == session_of(old(sessions)@, session_id@),
        final(sessions)@ == old(sessions)@.insert(session_id@, final(r)@),
{
    let ghost before = sessions.states@;
    proof {
        assert forall|s: SessionState| #[trigger]
            state_views(before.insert(session_id@, s)) == state_views(before).insert(
                session_id@,
                s@,
            ) by {
            assert(state_views(before.insert(session_id@, s)) =~= state_views(before).insert(
                session_id@,
                s@,
            ));
        }
    }
    sessions.states.get_or_insert(session_id, SessionState::new())
}

/// Forget a session.
pub fn clear_session(sessions: &mut Sessions, session_id: &str)
    ensures
        final(sessions)@ == old(sessions)@.remove(session_id@),
{
    sessions.states.remove(session_id);
    proof {
        assert(sessions@ =~= old(sessions)@.remove(session_id@));
    }
}

/// Record a read/write snapshot and return the tag, or `None` when the file is over cap.
pub fn record_snapshot(
    sessions: &mut Sessions,
    session_id: &str,
    path: &str,
    text: &str,
    seen_lines: Option<&[usize]>,
) -> (r: Option<String>)
    ensures
        match r {
            None => !fits_snapshot(text@) && final(sessions)@ == old(sessions)@,
            Some(tag) => {
                let before = session_of(old(sessions)@, session_id@);
                &&& fits_snapshot(text@)
                &&& tag@ == file_tag(recorded_text(text@))
                &&& final(sessions)@ == old(sessions)@.insert(
                    session_id@,
                    SessionView {
                        store: recorded(
                            before.store,
                            path@,
                            recorded_text(text@),
                            opt_lines(seen_lines),
                        ),
                        ..before
                    },
                )
            },
        },
{
    if text.as_bytes().len() > SNAPSHOT_MAX_BYTES {
        return None;
    }
    with_session(sessions, session_id).record(path, text, seen_lines)
}

// ---------------------------------------------------------------------------------------------
// Laws

/// Once a session was cleared, it starts anew, and the other sessions are as they were.
pub proof fn law_cleared_session_is_new(sessions: Map<Seq<char>, SessionView>, id: Seq<char>)
    ensures
        session_of(sessions.remove(id), id) == new_session(),
        forall|path: Seq<char>| #[trigger]
            head_of(session_of(sessions.remove(id), id).store, path) is None,
        forall|other: Seq<char>|
            other != id ==> #[trigger] session_of(sessions.remove(id), other) == session_of(
                sessions,
                other,
            ),
{
    assert forall|path: Seq<char>| #[trigger]
        head_of(session_of(sessions.remove(id), id).store, path) is None by {
        assert(history(new_session().store, path) =~= seq![]);
    }
}

} // verus!
