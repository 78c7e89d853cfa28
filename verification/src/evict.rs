//! The eviction executor: serve the deletion candidates in bounded chunks
//! while measured space stays over the threshold, record which deletions the
//! collaborator confirmed, and reconcile the persisted state at the end of
//! the pass. The collaborator calls themselves (deleting an image, measuring
//! space) happen outside the engine; this state machine decides what to
//! delete next and what to remember.

use vstd::prelude::*;

use crate::forest::id_list_has;
use crate::image::{NodeEntry, clone_optional_id};
use crate::plan::Candidate;
use crate::state::{Image, State, StateEntry};

verus! {

broadcast use vstd::seq_lib::group_seq_properties;

/// The persisted entry a surviving node leaves behind: its parent id and
/// its propagated last-used instant.
pub open spec fn state_entry_of(e: NodeEntry) -> StateEntry {
    StateEntry {
        id: e.id,
        image: Image {
            parent_id: e.node.image_record.parent_id,
            last_used_since_epoch: e.node.last_used_since_epoch,
        },
    }
}

/// The state a pass persists: one entry per node of the forest whose image
/// was not confirmed deleted, in forest order.
pub open spec fn spec_reconcile(forest: Seq<NodeEntry>, deleted: Seq<String>) -> Seq<StateEntry> {
    forest.filter(|e: NodeEntry| !id_list_has(deleted, e.id@)).map_values(
        |e: NodeEntry| state_entry_of(e),
    )
}

/// One eviction pass in progress: the ordered candidates, the position of
/// the next candidate to serve, the chunk and threshold configuration, and
/// the ids whose deletion the collaborator confirmed.
pub struct EvictionPass {
    pub candidates: Vec<Candidate>,
    pub next: usize,
    pub chunk_size: usize,
    pub threshold_bytes: u64,
    pub deleted: Vec<String>,
}

impl EvictionPass {
    /// The pass bookkeeping is consistent.
    pub open spec fn wf(self) -> bool {
        &&& self.next <= self.candidates@.len()
        &&& self.chunk_size >= 1
    }

    /// Start a pass over the planned candidates: nothing served, nothing
    /// deleted yet.
    pub fn new(candidates: Vec<Candidate>, chunk_size: usize, threshold_bytes: u64) -> (p: Self)
        requires
            chunk_size >= 1,
        ensures
            p.wf(),
            p.candidates == candidates,
            p.next == 0,
            p.chunk_size == chunk_size,
            p.threshold_bytes == threshold_bytes,
            p.deleted@ == Seq::<String>::empty(),
    {
        EvictionPass { candidates, next: 0, chunk_size, threshold_bytes, deleted: Vec::new() }
    }

    /// Whether the measured space still exceeds the threshold.
    pub fn over_threshold(&self, space_bytes: u64) -> (r: bool)
        ensures
            r == (space_bytes > self.threshold_bytes),
    {
        space_bytes > self.threshold_bytes
    }

    /// Decide the next step of the pass from the latest space measurement:
    /// when space is at or under the threshold, the pass is over and no
    /// further candidate is served; otherwise the next chunk of candidate
    /// ids, oldest first, at most `chunk_size` of them. An empty chunk
    /// while over the threshold means the candidates are exhausted.
    pub fn next_chunk(&mut self, space_bytes: u64) -> (chunk: Vec<String>)
        requires
            old(self).wf(),
        ensures
            final(self).wf(),
            final(self).candidates == old(self).candidates,
            final(self).chunk_size == old(self).chunk_size,
            final(self).threshold_bytes == old(self).threshold_bytes,
            final(self).deleted == old(self).deleted,
            space_bytes <= old(self).threshold_bytes ==> chunk@.len() == 0 && final(self).next
                == old(self).next,
            space_bytes > old(self).threshold_bytes ==> ({
                let lo = old(self).next as int;
                let hi = if lo + old(self).chunk_size <= old(self).candidates@.len() {
                    lo + old(self).chunk_size as int
                } else {
                    old(self).candidates@.len() as int
                };
                &&& final(self).next == hi
                &&& chunk@.len() == hi - lo
                &&& forall|t: int|
                    0 <= t < chunk@.len() ==> #[trigger] chunk@[t] == old(self).candidates@[lo
                        + t].id
            }),
    {
        let mut chunk: Vec<String> = Vec::new();
        if space_bytes <= self.threshold_bytes {
            return chunk;
        }
        let ghost lo = self.next as int;
        let mut served: usize = 0;
        while served < self.chunk_size && self.next < self.candidates.len()
            invariant
                self.wf(),
                self.candidates == old(self).candidates,
                self.chunk_size == old(self).chunk_size,
                self.threshold_bytes == old(self).threshold_bytes,
                self.deleted == old(self).deleted,
                lo == old(self).next as int,
                served <= self.chunk_size,
                self.next as int == lo + served,
                chunk@.len() == served,
                served < self.chunk_size || self.next as int == lo + self.chunk_size,
                forall|t: int|
                    0 <= t < chunk@.len() ==> #[trigger] chunk@[t] == self.candidates@[lo + t].id,
            decreases self.candidates@.len() - self.next,
        {
            chunk.push(self.candidates[self.next].id.clone());
            self.next = self.next + 1;
            served = served + 1;
        }
        chunk
    }

    /// Record the outcome of one deletion request: a confirmed deletion
    /// joins the deleted set; any other outcome — a confirmed failure or an
    /// unknown one — changes nothing, so the image's entry survives
    /// reconciliation and later candidates are still served. Space is
    /// re-measured after every chunk, which covers the case of a deletion
    /// that happened without being confirmed.
    pub fn record_outcome(&mut self, image_id: String, was_deleted: bool)
        ensures
            final(self).candidates == old(self).candidates,
            final(self).next == old(self).next,
            final(self).chunk_size == old(self).chunk_size,
            final(self).threshold_bytes == old(self).threshold_bytes,
            was_deleted ==> final(self).deleted@ == old(self).deleted@.push(image_id),
            !was_deleted ==> final(self).deleted == old(self).deleted,
    {
        if was_deleted {
            self.deleted.push(image_id);
        }
    }

    /// Reconcile the persisted state at the end of the pass: every node of
    /// the forest keeps (or gets) an entry carrying its parent id and its
    /// propagated last-used instant, except the images confirmed deleted,
    /// whose entries are dropped.
    pub fn reconcile(&self, forest: &Vec<NodeEntry>) -> (s: State)
        ensures
            s.images@ == spec_reconcile(forest@, self.deleted@),
    {
        let ghost pred = |e: NodeEntry| !id_list_has(self.deleted@, e.id@);
        let ghost f = |e: NodeEntry| state_entry_of(e);
        let mut images: Vec<StateEntry> = Vec::new();
        let mut i: usize = 0;
        while i < forest.len()
            invariant
                i <= forest@.len(),
                pred == (|e: NodeEntry| !id_list_has(self.deleted@, e.id@)),
                f == (|e: NodeEntry| state_entry_of(e)),
                images@ == forest@.subrange(0, i as int).filter(pred).map_values(f),
            decreases forest@.len() - i,
        {
            let ghost sub0 = forest@.subrange(0, i as int);
            let ghost sub1 = forest@.subrange(0, i as int + 1);
            proof {
                assert(sub1 =~= sub0.push(forest@[i as int]));
                Seq::lemma_filter_push(sub0, forest@[i as int], pred);
                if pred(forest@[i as int]) {
                    assert(sub1.filter(pred).map_values(f) =~= sub0.filter(pred).map_values(
                        f,
                    ).push(f(forest@[i as int])));
                } else {
                    assert(sub1.filter(pred).map_values(f) == sub0.filter(pred).map_values(f));
                }
            }
            let entry = &forest[i];
            if !crate::forest::id_list_contains(&self.deleted, &entry.id) {
                let image = Image {
                    parent_id: clone_optional_id(&entry.node.image_record.parent_id),
                    last_used_since_epoch: entry.node.last_used_since_epoch,
                };
                images.push(StateEntry { id: entry.id.clone(), image });
                proof {
                    assert(images@.last() == f(forest@[i as int]));
                }
            }
            i = i + 1;
        }
        proof {
            assert(forest@.subrange(0, forest@.len() as int) =~= forest@);
        }
        State { images }
    }
}

/// Begin one vacuum pass from what the collaborator reported: build the
/// polyforest, plan the ordered deletion candidates, and set up the
/// executor against the space threshold. The caller then performs the
/// deletions and space measurements the executor asks for, and finally
/// reconciles the persisted state.
pub fn begin_vacuum_pass(
    state: &State,
    first_run: bool,
    image_records: Vec<crate::image::RecordEntry>,
    image_ids_in_use: &Vec<String>,
    now_since_epoch: u64,
    keep: Option<&regex::RegexSet>,
    min_age: Option<u64>,
    deletion_chunk_size: usize,
    threshold_bytes: u64,
) -> (r: Result<(Vec<NodeEntry>, EvictionPass), crate::failure::Failure>)
    requires
        crate::image::distinct_ids(image_records@),
        crate::state::state_distinct(state.images@),
        deletion_chunk_size >= 1,
    ensures
        match r {
            Result::Ok(fp) => ({
                let forest = fp.0;
                let pass = fp.1;
                &&& match min_age {
                    Option::Some(m) => m <= now_since_epoch,
                    Option::None => true,
                }
                &&& forest@.len() == image_records@.len()
                &&& forall|i: int|
                    #![trigger forest@[i]]
                    0 <= i < forest@.len() ==> forest@[i].id == image_records@[i].id
                        && forest@[i].node.image_record == image_records@[i].record
                &&& forall|i: int|
                    #![trigger forest@[i]]
                    0 <= i < forest@.len() ==> (crate::image::chain_ends(image_records@, i)
                        ==> crate::image::rooted_at(
                        image_records@,
                        i,
                        forest@[i].node.ancestors as nat,
                    ))
                &&& (crate::image::acyclic(image_records@) ==> forall|i: int|
                    #![trigger forest@[i]]
                    0 <= i < forest@.len() ==> crate::forest::is_subtree_max(
                        image_records@,
                        crate::forest::baselines_of(
                            state.images@,
                            first_run,
                            image_ids_in_use@,
                            image_records@,
                            now_since_epoch,
                        ),
                        i,
                        forest@[i].node.last_used_since_epoch,
                    ))
                &&& crate::plan::eviction_sorted(pass.candidates@)
                &&& pass.candidates@.len() == forest@.filter(
                    crate::plan::eligible(keep, min_age, now_since_epoch),
                ).len()
                &&& forall|j: int|
                    0 <= j < pass.candidates@.len() ==> #[trigger] crate::plan::candidate_ok(
                        forest@,
                        keep,
                        min_age,
                        now_since_epoch,
                        pass.candidates@[j],
                    )
                &&& forall|i: int|
                    #![trigger forest@[i]]
                    0 <= i < forest@.len() && !crate::plan::spec_kept(keep, forest@[i].node)
                        && crate::plan::age_ok(
                        min_age,
                        now_since_epoch,
                        forest@[i].node.last_used_since_epoch,
                    ) ==> crate::plan::covered(forest@, pass.candidates@, i)
                &&& pass.wf()
                &&& pass.next == 0
                &&& pass.deleted@ == Seq::<String>::empty()
                &&& pass.chunk_size == deletion_chunk_size
                &&& pass.threshold_bytes == threshold_bytes
            }),
            Result::Err(f) => {
                &&& match min_age {
                    Option::Some(m) => m > now_since_epoch,
                    Option::None => false,
                }
                &&& f is User
            },
        },
{
    let forest = crate::forest::construct_polyforest(
        state,
        first_run,
        image_records,
        image_ids_in_use,
        now_since_epoch,
    );
    let candidates = match crate::plan::plan_eviction(&forest, keep, min_age, now_since_epoch) {
        Ok(candidates) => candidates,
        Err(f) => {
            return Err(f);
        },
    };
    let pass = EvictionPass::new(candidates, deletion_chunk_size, threshold_bytes);
    Ok((forest, pass))
}

/// Partial-failure tolerance: the remembered entry of an image that was not
/// confirmed deleted survives reconciliation unchanged, whatever happened to
/// the other candidates of the pass.
pub proof fn lemma_undeleted_entry_retained(forest: Seq<NodeEntry>, deleted: Seq<String>, i: int)
    requires
        0 <= i < forest.len(),
        !id_list_has(deleted, forest[i].id@),
    ensures
        spec_reconcile(forest, deleted).contains(state_entry_of(forest[i])),
{
    let pred = |e: NodeEntry| !id_list_has(deleted, e.id@);
    let f = |e: NodeEntry| state_entry_of(e);
    forest.lemma_filter_contains(pred, i);
    let filtered = forest.filter(pred);
    let j = choose|j: int| 0 <= j < filtered.len() && filtered[j] == forest[i];
    assert(spec_reconcile(forest, deleted)[j] == state_entry_of(forest[i]));
}

/// Idle pass: when nothing was deleted, reconciliation still refreshes one
/// entry per current image, in forest order.
pub proof fn lemma_idle_pass_state(forest: Seq<NodeEntry>)
    ensures
        spec_reconcile(forest, Seq::<String>::empty()).len() == forest.len(),
        forall|i: int|
            0 <= i < forest.len() ==> spec_reconcile(forest, Seq::<String>::empty())[i]
                == state_entry_of(forest[i]),
{
    let deleted = Seq::<String>::empty();
    let pred = |e: NodeEntry| !id_list_has(deleted, e.id@);
    lemma_filter_everything(forest, pred);
}

/// Filtering with a predicate that holds of every element keeps the
/// sequence as it is.
proof fn lemma_filter_everything(s: Seq<NodeEntry>, pred: spec_fn(NodeEntry) -> bool)
    requires
        forall|i: int| 0 <= i < s.len() ==> #[trigger] pred(s[i]),
    ensures
        s.filter(pred) == s,
    decreases s.len(),
{
    reveal(Seq::filter);
    if s.len() > 0 {
        lemma_filter_everything(s.drop_last(), pred);
        assert(s.drop_last().push(s.last()) =~= s);
    }
}

} // verus!
