//! Decoder backend fallback and the running list of subtitles: which
//! backend to try after a failure, and how subtitle updates from the
//! pipeline change the list.

use vstd::prelude::*;

verus! {

/// The first entry of `available` that is not in `tried`, if any.
pub open spec fn next_untried(available: Seq<u32>, tried: Seq<u32>) -> Option<u32>
    decreases available.len(),
{
    if available.len() == 0 {
        None
    } else if !tried.contains(available[0]) {
        Some(available[0])
    } else {
        next_untried(available.drop_first(), tried)
    }
}

fn contains(list: &[u32], value: u32) -> (b: bool)
    ensures
        b == list@.contains(value),
{
    let mut i: usize = 0;
    while i < list.len()
        invariant
            i <= list@.len(),
            forall|j: int| 0 <= j < i ==> list@[j] != value,
        decreases list@.len() - i,
    {
        if list[i] == value {
            return true;
        }
        i = i + 1;
    }
    false
}

/// The first available backend that has not been tried yet.
pub fn select_next_backend(available: &[u32], tried: &[u32]) -> (next: Option<u32>)
    ensures
        next == next_untried(available@, tried@),
{
    proof {
        assert(available@.subrange(0, available@.len() as int) =~= available@);
    }
    let mut i: usize = 0;
    while i < available.len()
        invariant
            i <= available@.len(),
            next_untried(available@.subrange(i as int, available@.len() as int), tried@) == next_untried(available@, tried@),
        decreases available@.len() - i,
    {
        let b = available[i];
        proof {
            assert(available@.subrange(i as int, available@.len() as int).drop_first() =~= available@.subrange(
                i + 1,
                available@.len() as int,
            ));
        }
        if !contains(tried, b) {
            return Some(b);
        }
        i = i + 1;
    }
    None
}

/// A fallback backend is an available one not tried before; there is none
/// exactly when every available backend has been tried. So the fallback
/// never retries a backend and stops after at most as many attempts as
/// there are backends.
pub proof fn lemma_next_untried_fresh(available: Seq<u32>, tried: Seq<u32>)
    ensures
        next_untried(available, tried) matches Some(b) ==> available.contains(b) && !tried.contains(b),
        next_untried(available, tried) is None <==> (forall|i: int| 0 <= i < available.len() ==> tried.contains(#[trigger] available[i])),
    decreases available.len(),
{
    if available.len() > 0 {
        lemma_next_untried_fresh(available.drop_first(), tried);
        if !tried.contains(available[0]) {
            assert(available.contains(available[0]));
        } else {
            if let Some(b) = next_untried(available.drop_first(), tried) {
                let k = choose|k: int| 0 <= k < available.drop_first().len() && available.drop_first()[k] == b;
                assert(available[k + 1] == b);
            }
            assert forall|i: int| 0 <= i < available.len() && next_untried(available, tried) is None implies tried.contains(#[trigger] available[i]) by {
                if i > 0 {
                    assert(available[i] == available.drop_first()[i - 1]);
                }
            }
            if !(next_untried(available, tried) is None) {
                let b = next_untried(available, tried)->0;
                let k = choose|k: int| 0 <= k < available.drop_first().len() && available.drop_first()[k] == b;
                assert(available[k + 1] == b);
            }
        }
    }
}

/// Why decoding cannot start.
#[derive(Clone, Copy, Debug, PartialEq, Eq, Structural)]
pub enum BackendStartError {
    /// No backend was built in.
    NoBackend,
    /// The requested backend was not built in.
    Unsupported(u32),
}

/// The backends tried so far and the one being tried now.
#[derive(Clone, Debug)]
pub struct BackendAttempts {
    pub available: Vec<u32>,
    pub tried: Vec<u32>,
    pub current: u32,
    pub locked: bool,
}

impl BackendAttempts {
    /// Starts with the requested backend, which must be available; when
    /// `locked`, no other backend is ever tried.
    pub fn start(available: Vec<u32>, requested: u32, locked: bool) -> (r: Result<BackendAttempts, BackendStartError>)
        ensures
            available@.len() == 0 ==> r == Err::<BackendAttempts, BackendStartError>(BackendStartError::NoBackend),
            available@.len() > 0 && !available@.contains(requested) ==> r == Err::<BackendAttempts, BackendStartError>(
                BackendStartError::Unsupported(requested),
            ),
            available@.len() > 0 && available@.contains(requested) ==> (r matches Ok(a) && a.available@ == available@ && a.tried@
                == seq![requested] && a.current == requested && a.locked == locked),
    {
        if available.len() == 0 {
            return Err(BackendStartError::NoBackend);
        }
        if !contains(&available, requested) {
            return Err(BackendStartError::Unsupported(requested));
        }
        let mut tried: Vec<u32> = Vec::new();
        tried.push(requested);
        Ok(BackendAttempts { available, tried, current: requested, locked })
    }

    /// After the current backend failed, having decoded `frames_seen`
    /// frames: the next backend to try (now current and tried), or `None`
    /// to give up, which happens when frames were already decoded, when the
    /// backend is locked, or when every available backend has been tried.
    pub fn on_failure(&mut self, frames_seen: u64) -> (next: Option<u32>)
        ensures
            next == (if frames_seen == 0 && !old(self).locked {
                next_untried(old(self).available@, old(self).tried@)
            } else {
                None::<u32>
            }),
            next matches Some(b) ==> final(self).current == b && final(self).tried@ == old(self).tried@.push(b),
            next is None ==> final(self).current == old(self).current && final(self).tried@ == old(self).tried@,
            final(self).available@ == old(self).available@,
            final(self).locked == old(self).locked,
    {
        if frames_seen != 0 || self.locked {
            return None;
        }
        match select_next_backend(&self.available, &self.tried) {
            Some(b) => {
                self.current = b;
                self.tried.push(b);
                Some(b)
            },
            None => None,
        }
    }
}

/// A subtitle of the running list, known by its id.
#[derive(Clone, Debug)]
pub struct Keyed<T> {
    pub id: u64,
    pub value: T,
}

/// Whether an update brings a new subtitle or revises a known one.
#[derive(Clone, Copy, Debug, PartialEq, Eq, Structural)]
pub enum SubtitleUpdateKind {
    New,
    Updated,
}

/// One change to the running list of subtitles.
#[derive(Clone, Debug)]
pub struct SubtitleUpdate<T> {
    pub kind: SubtitleUpdateKind,
    pub subtitle: Keyed<T>,
}

/// The position of the first subtitle with id `id`, if any.
pub open spec fn first_with_id<T>(list: Seq<Keyed<T>>, id: u64) -> Option<int>
    decreases list.len(),
{
    if list.len() == 0 {
        None
    } else if list[0].id == id {
        Some(0)
    } else {
        match first_with_id(list.drop_first(), id) {
            Some(i) => Some(i + 1),
            None => None,
        }
    }
}

/// The list after one update: a new subtitle is appended; a revised one
/// replaces the first with its id, or is appended when there is none.
pub open spec fn apply_update<T>(list: Seq<Keyed<T>>, u: SubtitleUpdate<T>) -> Seq<Keyed<T>> {
    match u.kind {
        SubtitleUpdateKind::New => list.push(u.subtitle),
        SubtitleUpdateKind::Updated => match first_with_id(list, u.subtitle.id) {
            Some(i) => list.update(i, u.subtitle),
            None => list.push(u.subtitle),
        },
    }
}

/// The list after the updates, applied in order.
pub open spec fn apply_all<T>(list: Seq<Keyed<T>>, updates: Seq<SubtitleUpdate<T>>) -> Seq<Keyed<T>>
    decreases updates.len(),
{
    if updates.len() == 0 {
        list
    } else {
        apply_all(apply_update(list, updates[0]), updates.drop_first())
    }
}

proof fn lemma_first_with_id<T>(list: Seq<Keyed<T>>, id: u64, k: int)
    requires
        0 <= k <= list.len(),
        forall|j: int| 0 <= j < k ==> list[j].id != id,
    ensures
        k < list.len() && list[k].id == id ==> first_with_id(list, id) == Some(k),
        k == list.len() ==> first_with_id(list, id) is None,
    decreases k,
{
    if k > 0 {
        lemma_first_with_id(list.drop_first(), id, k - 1);
    }
}

/// Applies subtitle updates, in order, to the running list.
pub fn apply_updates<T>(subtitles: &mut Vec<Keyed<T>>, updates: Vec<SubtitleUpdate<T>>)
    ensures
        final(subtitles)@ == apply_all(old(subtitles)@, updates@),
{
    let mut rest = updates;
    while rest.len() > 0
        invariant
            apply_all(subtitles@, rest@) == apply_all(old(subtitles)@, updates@),
        decreases rest@.len(),
    {
        let ghost all = rest@;
        let update = rest.remove(0);
        proof {
            assert(rest@ =~= all.drop_first());
        }
        match update.kind {
            SubtitleUpdateKind::New => {
                subtitles.push(update.subtitle);
            },
            SubtitleUpdateKind::Updated => {
                let ghost before = subtitles@;
                let mut i: usize = 0;
                while i < subtitles.len() && subtitles[i].id != update.subtitle.id
                    invariant
                        i <= subtitles@.len(),
                        subtitles@ == before,
                        forall|j: int| 0 <= j < i ==> subtitles@[j].id != update.subtitle.id,
                    decreases subtitles@.len() - i,
                {
                    i = i + 1;
                }
                proof {
                    lemma_first_with_id(before, update.subtitle.id, i as int);
                }
                if i < subtitles.len() {
                    subtitles.set(i, update.subtitle);
                } else {
                    subtitles.push(update.subtitle);
                }
            },
        }
    }
}

} // verus!
