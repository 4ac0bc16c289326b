//! The videos the desktop front end has open: each session has an id, the
//! video's path and label, the handle of its detection run and the last
//! playback position seen.

use vstd::prelude::*;

use crate::frame::FrameTime;

verus! {

/// An open video.
pub struct VideoSession<D> {
    pub id: u64,
    pub path: String,
    pub label: String,
    pub detection: D,
    pub last_timestamp: Option<FrameTime>,
    pub last_frame_index: Option<u64>,
}

/// The id the next session gets after `next_id`: one more, saturating at
/// `u64::MAX`, and never 0.
pub open spec fn following_id(next_id: u64) -> u64 {
    if next_id == u64::MAX {
        u64::MAX
    } else {
        (next_id + 1) as u64
    }
}

/// Some session has the id `id`.
pub open spec fn has_id<D>(sessions: Seq<VideoSession<D>>, id: u64) -> bool {
    exists|i: int| 0 <= i < sessions.len() && #[trigger] sessions[i].id == id
}

/// Session `i` is the first with the id `id`.
pub open spec fn is_first_with_id<D>(sessions: Seq<VideoSession<D>>, id: u64, i: int) -> bool {
    &&& 0 <= i < sessions.len()
    &&& sessions[i].id == id
    &&& forall|j: int| 0 <= j < i ==> #[trigger] sessions[j].id != id
}

/// `session` with each of the time and the frame index that is given
/// replacing the one stored.
pub open spec fn played<D>(session: VideoSession<D>, timestamp: Option<FrameTime>, frame_index: Option<u64>) -> VideoSession<D> {
    VideoSession {
        last_timestamp: if timestamp is Some { timestamp } else { session.last_timestamp },
        last_frame_index: if frame_index is Some { frame_index } else { session.last_frame_index },
        ..session
    }
}

/// The open sessions, the id of the last one opened and the active one.
pub struct SessionStore<D> {
    next_id: u64,
    active_id: Option<u64>,
    sessions: Vec<VideoSession<D>>,
}

impl<D> SessionStore<D> {
    pub closed spec fn spec_next_id(&self) -> u64 {
        self.next_id
    }

    pub closed spec fn spec_active_id(&self) -> Option<u64> {
        self.active_id
    }

    pub closed spec fn spec_sessions(&self) -> Seq<VideoSession<D>> {
        self.sessions@
    }

    /// Ids run from 1 to the last one given, each later one larger, except
    /// that they stop at `u64::MAX` once it is reached.
    pub open spec fn wf(&self) -> bool {
        let s = self.spec_sessions();
        &&& forall|i: int| 0 <= i < s.len() ==> 1 <= #[trigger] s[i].id <= self.spec_next_id()
        &&& forall|i: int, j: int|
            0 <= i < j < s.len() ==> #[trigger] s[i].id < #[trigger] s[j].id || s[i].id == u64::MAX
    }

    /// No session is open.
    pub fn new() -> (s: Self)
        ensures
            s.wf(),
            s.spec_next_id() == 0,
            s.spec_active_id() is None,
            s.spec_sessions().len() == 0,
    {
        SessionStore { next_id: 0, active_id: None, sessions: Vec::new() }
    }

    /// Opens a session for the video at `path`, labelled `label`, and gives
    /// its id: the one after the last given, saturating at `u64::MAX`.
    pub fn add_session(&mut self, path: String, label: String, detection: D) -> (id: u64)
        requires
            old(self).wf(),
        ensures
            final(self).wf(),
            id == following_id(old(self).spec_next_id()),
            final(self).spec_next_id() == id,
            final(self).spec_active_id() == old(self).spec_active_id(),
            final(self).spec_sessions() == old(self).spec_sessions().push(
                (VideoSession { id, path, label, detection, last_timestamp: None, last_frame_index: None }),
            ),
    {
        let id = if self.next_id == u64::MAX {
            u64::MAX
        } else {
            self.next_id + 1
        };
        self.next_id = id;
        self.sessions.push(VideoSession { id, path, label, detection, last_timestamp: None, last_frame_index: None });
        id
    }

    /// The open sessions, in the order they were opened.
    pub fn sessions_snapshot(&self) -> (s: &[VideoSession<D>])
        ensures
            s@ == self.spec_sessions(),
    {
        self.sessions.as_slice()
    }

    /// The index of the first session with the id `id`.
    fn position(&self, id: u64) -> (r: Option<usize>)
        ensures
            match r {
                Some(i) => is_first_with_id(self.spec_sessions(), id, i as int),
                None => !has_id(self.spec_sessions(), id),
            },
    {
        let mut i: usize = 0;
        while i < self.sessions.len()
            invariant
                i <= self.sessions@.len(),
                forall|j: int| 0 <= j < i ==> #[trigger] self.sessions@[j].id != id,
            decreases self.sessions@.len() - i,
        {
            if self.sessions[i].id == id {
                return Some(i);
            }
            i = i + 1;
        }
        None
    }

    /// The first session with the id `id`, if any.
    pub fn session(&self, id: u64) -> (r: Option<&VideoSession<D>>)
        ensures
            r is None <==> !has_id(self.spec_sessions(), id),
            r matches Some(v) ==> exists|i: int| #[trigger] is_first_with_id(self.spec_sessions(), id, i) && *v == self.spec_sessions()[i],
    {
        match self.position(id) {
            Some(i) => Some(&self.sessions[i]),
            None => None,
        }
    }

    /// Makes the session with the id `id` the active one.
    pub fn set_active(&mut self, id: u64)
        requires
            old(self).wf(),
        ensures
            final(self).wf(),
            final(self).spec_active_id() == Some(id),
            final(self).spec_next_id() == old(self).spec_next_id(),
            final(self).spec_sessions() == old(self).spec_sessions(),
    {
        self.active_id = Some(id);
    }

    /// The id of the active session, if one was set.
    pub fn active_id(&self) -> (r: Option<u64>)
        ensures
            r == self.spec_active_id(),
    {
        self.active_id
    }

    /// Records the playback position of the first session with the id
    /// `id`: each of the time and the frame index that is given replaces the
    /// one stored.
    pub fn update_playback(&mut self, id: u64, timestamp: Option<FrameTime>, frame_index: Option<u64>)
        requires
            old(self).wf(),
        ensures
            final(self).wf(),
            final(self).spec_next_id() == old(self).spec_next_id(),
            final(self).spec_active_id() == old(self).spec_active_id(),
            final(self).spec_sessions().len() == old(self).spec_sessions().len(),
            !has_id(old(self).spec_sessions(), id) ==> final(self).spec_sessions() == old(self).spec_sessions(),
            has_id(old(self).spec_sessions(), id) ==> exists|i: int|
                #[trigger] is_first_with_id(old(self).spec_sessions(), id, i) && final(self).spec_sessions() == old(
                    self,
                ).spec_sessions().update(i, played(old(self).spec_sessions()[i], timestamp, frame_index)),
    {
        match self.position(id) {
            Some(i) => {
                if timestamp.is_some() {
                    self.sessions[i].last_timestamp = timestamp;
                }
                if frame_index.is_some() {
                    self.sessions[i].last_frame_index = frame_index;
                }
            },
            None => {},
        }
    }
}

/// A session opened before the ids run out is the one found by its id:
/// its id is new, so it is the first session with it.
pub proof fn lemma_added_session_is_found<D>(store: SessionStore<D>, session: VideoSession<D>)
    requires
        store.wf(),
        store.spec_next_id() < u64::MAX,
        session.id == following_id(store.spec_next_id()),
    ensures
        is_first_with_id(store.spec_sessions().push(session), session.id, store.spec_sessions().len() as int),
{
    let s = store.spec_sessions();
    assert forall|j: int| 0 <= j < s.len() implies #[trigger] s.push(session)[j].id != session.id by {
        assert(s.push(session)[j] == s[j]);
        assert(s[j].id <= store.spec_next_id());
    }
}

} // verus!
