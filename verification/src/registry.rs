//! The per-guild audio session registry: at most one live track handle
//! per guild at any time.
//!
//! The handle type is a parameter: the audio transport's own handle is
//! stored as an opaque value. Superseding or stopping a session hands
//! the displaced handle back to the caller, who owns the actual
//! stop-signal call on it; the registry's contracts guarantee that no
//! displaced handle is silently dropped.

use vstd::prelude::*;

use crate::table::{
    keys_strictly_sorted, lemma_lookup_absent, lemma_lookup_at, lemma_lookup_insert,
    lemma_lookup_remove, lemma_lookup_update, lemma_remove_insert_is_update, locate_key,
    spec_lookup,
};

verus! {

/// The registry of currently playing tracks, one entry per guild.
pub struct Player<H> {
    pub sessions: Vec<(u64, H)>,
}

impl<H> View for Player<H> {
    type V = Seq<(u64, H)>;

    open spec fn view(&self) -> Seq<(u64, H)> {
        self.sessions@
    }
}

impl<H> Player<H> {
    /// Entries are sorted by guild, so each guild holds at most one.
    pub open spec fn wf(self) -> bool {
        keys_strictly_sorted(self@)
    }

    /// The live handle of `guild`, if a track is playing there.
    pub open spec fn session_of(self, guild: u64) -> Option<H> {
        spec_lookup(self@, guild)
    }

    /// An empty registry: no guild is playing anything.
    pub fn new() -> (r: Player<H>)
        ensures
            r.wf(),
            r@ == Seq::<(u64, H)>::empty(),
    {
        let r = Player { sessions: Vec::new() };
        proof {
            assert(r@ =~= Seq::<(u64, H)>::empty());
        }
        r
    }

    /// Makes `handle` the one live session of `guild` and returns the
    /// handle it displaces, if any: the caller must send that handle
    /// its stop signal before discarding it.
    pub fn start(&mut self, guild: u64, handle: H) -> (prev: Option<H>)
        requires
            old(self).wf(),
        ensures
            final(self).wf(),
            final(self).session_of(guild) == Some(handle),
            prev == old(self).session_of(guild),
            forall|x: u64| x != guild
                ==> #[trigger] final(self).session_of(x) == old(self).session_of(x),
    {
        match locate_key(&self.sessions, guild) {
            Ok(i) => {
                proof {
                    lemma_lookup_at(self.sessions@, i as int);
                }
                let entry = self.sessions.remove(i);
                self.sessions.insert(i, (guild, handle));
                proof {
                    lemma_remove_insert_is_update(
                        old(self).sessions@,
                        i as int,
                        (guild, handle),
                    );
                    lemma_lookup_update(old(self).sessions@, i as int, handle);
                }
                Some(entry.1)
            },
            Err(pos) => {
                proof {
                    lemma_lookup_absent(self.sessions@, guild);
                }
                self.sessions.insert(pos, (guild, handle));
                proof {
                    lemma_lookup_insert(old(self).sessions@, pos as int, guild, handle);
                    old(self).sessions@.insert_ensures(pos as int, (guild, handle));
                }
                None
            },
        }
    }

    /// Removes and returns the live session of `guild`, if any: the
    /// caller owns the returned handle and its stop signal.
    pub fn stop(&mut self, guild: u64) -> (prev: Option<H>)
        requires
            old(self).wf(),
        ensures
            final(self).wf(),
            final(self).session_of(guild) is None,
            prev == old(self).session_of(guild),
            forall|x: u64| x != guild
                ==> #[trigger] final(self).session_of(x) == old(self).session_of(x),
    {
        match locate_key(&self.sessions, guild) {
            Ok(i) => {
                proof {
                    lemma_lookup_at(self.sessions@, i as int);
                    lemma_lookup_remove(self.sessions@, i as int);
                }
                let entry = self.sessions.remove(i);
                Some(entry.1)
            },
            Err(_) => {
                proof {
                    lemma_lookup_absent(self.sessions@, guild);
                }
                None
            },
        }
    }

    /// Reads the live session of `guild` without removing it, for
    /// pause, resume and volume adjustments.
    pub fn get(&self, guild: u64) -> (r: Option<&H>)
        requires
            self.wf(),
        ensures
            match r {
                Some(h) => self.session_of(guild) == Some(*h),
                None => self.session_of(guild) is None,
            },
    {
        match locate_key(&self.sessions, guild) {
            Ok(i) => {
                proof {
                    lemma_lookup_at(self.sessions@, i as int);
                }
                Some(&self.sessions[i].1)
            },
            Err(_) => {
                proof {
                    lemma_lookup_absent(self.sessions@, guild);
                }
                None
            },
        }
    }
}

/// However `start` and `stop` are interleaved, a well-formed registry
/// never holds two entries for one guild: any two entries with the same
/// guild are the same entry.
pub proof fn lemma_at_most_one_session<H>(p: Player<H>, i: int, j: int)
    requires
        p.wf(),
        0 <= i < p@.len(),
        0 <= j < p@.len(),
        p@[i].0 == p@[j].0,
    ensures
        i == j,
{
    if i < j {
        assert(p@[i].0 < p@[j].0);
    } else if j < i {
        assert(p@[j].0 < p@[i].0);
    }
}

} // verus!
