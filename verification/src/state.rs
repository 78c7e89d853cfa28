//! The persisted program state: the map from image id to what the engine
//! remembers about that image across passes.

use vstd::prelude::*;

verus! {

/// What the engine remembers about an individual image.
#[derive(Clone, Debug, PartialEq, Eq)]
pub struct Image {
    /// The id of the parent image, if the image has one.
    pub parent_id: Option<String>,
    /// Seconds between the UNIX epoch and the moment the image was most
    /// recently used.
    pub last_used_since_epoch: u64,
}

/// A remembered image keyed by its image id.
#[derive(Clone, Debug, PartialEq, Eq)]
pub struct StateEntry {
    pub id: String,
    pub image: Image,
}

/// The program state: one entry per remembered image, ids distinct.
#[derive(Debug)]
pub struct State {
    pub images: Vec<StateEntry>,
}

/// No two entries carry the same image id.
pub open spec fn state_distinct(s: Seq<StateEntry>) -> bool {
    forall|i: int, j: int| 0 <= i < j < s.len() ==> s[i].id@ != s[j].id@
}

/// Some entry carries the id.
pub open spec fn state_has_id(s: Seq<StateEntry>, id: Seq<char>) -> bool {
    exists|i: int| 0 <= i < s.len() && s[i].id@ == id
}

/// The index of the entry carrying the id; meaningful when `state_has_id`
/// holds and the ids are distinct.
pub open spec fn state_idx_of(s: Seq<StateEntry>, id: Seq<char>) -> int {
    choose|i: int| 0 <= i < s.len() && s[i].id@ == id
}

/// When the state holds the id, `state_idx_of` points at the entry carrying
/// it.
pub proof fn lemma_state_idx_of(s: Seq<StateEntry>, id: Seq<char>)
    requires
        state_has_id(s, id),
    ensures
        0 <= state_idx_of(s, id) < s.len(),
        s[state_idx_of(s, id)].id@ == id,
{
    let i = choose|i: int| 0 <= i < s.len() && s[i].id@ == id;
    assert(0 <= i < s.len() && s[i].id@ == id);
}

/// Return the state in which the program starts, if no state was loaded
/// from disk: no image is remembered.
pub fn initial() -> (s: State)
    ensures
        s.images@ == Seq::<StateEntry>::empty(),
{
    State { images: Vec::new() }
}

impl State {
    /// The index of the entry remembering `image_id`, if one exists.
    pub fn find(&self, image_id: &String) -> (r: Option<usize>)
        requires
            state_distinct(self.images@),
        ensures
            match r {
                Some(i) => i < self.images@.len() && self.images@[i as int].id@ == image_id@
                    && state_has_id(self.images@, image_id@) && state_idx_of(
                    self.images@,
                    image_id@,
                ) == i as int,
                None => !state_has_id(self.images@, image_id@),
            },
    {
        let mut i: usize = 0;
        while i < self.images.len()
            invariant
                state_distinct(self.images@),
                i <= self.images@.len(),
                forall|j: int| 0 <= j < i ==> self.images@[j].id@ != image_id@,
            decreases self.images@.len() - i,
        {
            if self.images[i].id == *image_id {
                proof {
                    assert(self.images@[i as int].id@ == image_id@);
                    assert(state_has_id(self.images@, image_id@));
                    lemma_state_idx_of(self.images@, image_id@);
                    let w = state_idx_of(self.images@, image_id@);
                    assert(state_distinct(self.images@));
                    if w != i as int {
                        assert(self.images@[w].id@ == self.images@[i as int].id@);
                        assert(false);
                    }
                }
                return Some(i);
            }
            i = i + 1;
        }
        None
    }

    /// Record that the image was just used: its remembered entry is replaced
    /// (or created) with the given parent id and `now` as the moment of last
    /// use. Returns whether a new entry was created for the image.
    pub fn touch(&mut self, image_id: &String, parent_id: Option<String>, now: u64) -> (created:
        bool)
        requires
            state_distinct(old(self).images@),
        ensures
            created == !state_has_id(old(self).images@, image_id@),
            state_distinct(final(self).images@),
            ({
                let entry = StateEntry {
                    id: *image_id,
                    image: Image { parent_id, last_used_since_epoch: now },
                };
                if created {
                    final(self).images@ == old(self).images@.push(entry)
                } else {
                    final(self).images@ == old(self).images@.update(
                        state_idx_of(old(self).images@, image_id@),
                        entry,
                    )
                }
            }),
    {
        let entry = StateEntry {
            id: image_id.clone(),
            image: Image { parent_id, last_used_since_epoch: now },
        };
        match self.find(image_id) {
            Some(i) => {
                self.images[i] = entry;
                proof {
                    assert forall|a: int, b: int|
                        0 <= a < b < final(self).images@.len() implies final(self).images@[a].id@
                        != final(self).images@[b].id@ by {
                        assert(old(self).images@[a].id@ != old(self).images@[b].id@);
                    }
                }
                false
            },
            None => {
                self.images.push(entry);
                proof {
                    let n = old(self).images@.len() as int;
                    assert forall|a: int, b: int|
                        0 <= a < b < final(self).images@.len() implies final(self).images@[a].id@
                        != final(self).images@[b].id@ by {
                        if b < n {
                            assert(old(self).images@[a].id@ != old(self).images@[b].id@);
                        } else {
                            assert(final(self).images@[b].id@ == image_id@);
                            assert(final(self).images@[a] == old(self).images@[a]);
                        }
                    }
                }
                true
            },
        }
    }
}

} // verus!
