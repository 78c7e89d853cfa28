//! The polyforest builder: from the flat record set, the persisted state and
//! the set of images in use, build one image node per record, carrying its
//! ancestor count and its propagated last-used instant.

use vstd::prelude::*;

use crate::image::{
    ImageNode, NodeEntry, RecordEntry, acyclic, anc_at, chain_ends, distinct_ids, has_id, idx_of,
    lemma_anc_none_stays, lemma_idx_of, lemma_reaches_parent, lemma_reaches_self, parent_idx,
    reaches, rooted_at,
};
use crate::state::{State, state_distinct, state_has_id, state_idx_of};

verus! {

/// Some string in the list reads as the id.
pub open spec fn id_list_has(s: Seq<String>, id: Seq<char>) -> bool {
    exists|i: int| 0 <= i < s.len() && s[i]@ == id
}

/// The last-used instant a node starts the pass with, before propagation:
/// the remembered instant when the state holds the image; otherwise the
/// image's creation time on the first pass since process start, or the
/// current instant on later passes. An image in use by a container is
/// bumped to the current instant.
pub open spec fn spec_initial_used(
    state: Seq<crate::state::StateEntry>,
    first_run: bool,
    in_use: Seq<String>,
    e: RecordEntry,
    now: u64,
) -> u64 {
    let base = if state_has_id(state, e.id@) {
        state[state_idx_of(state, e.id@)].image.last_used_since_epoch
    } else if first_run {
        e.record.created_since_epoch
    } else {
        now
    };
    if id_list_has(in_use, e.id@) {
        if base >= now {
            base
        } else {
            now
        }
    } else {
        base
    }
}

/// The starting last-used instant of every record, in record order.
pub open spec fn baselines_of(
    state: Seq<crate::state::StateEntry>,
    first_run: bool,
    in_use: Seq<String>,
    s: Seq<RecordEntry>,
    now: u64,
) -> Seq<u64> {
    Seq::new(s.len(), |i: int| spec_initial_used(state, first_run, in_use, s[i], now))
}

/// `v` is the starting instant of some node whose resolved parent chain
/// passes through `a` (possibly `a` itself).
pub open spec fn used_in_subtree(s: Seq<RecordEntry>, base: Seq<u64>, a: int, v: u64) -> bool {
    exists|d: int| 0 <= d < s.len() && #[trigger] reaches(s, d, a) && base[d] == v
}

/// `v` is the largest starting instant among the nodes whose resolved
/// parent chain passes through `a` (including `a` itself).
pub open spec fn is_subtree_max(s: Seq<RecordEntry>, base: Seq<u64>, a: int, v: u64) -> bool {
    &&& used_in_subtree(s, base, a, v)
    &&& forall|d: int| 0 <= d < s.len() && #[trigger] reaches(s, d, a) ==> base[d] <= v
}

/// The index of the entry carrying `id`, if the record set holds it.
pub fn find_record(records: &Vec<RecordEntry>, id: &String) -> (r: Option<usize>)
    requires
        distinct_ids(records@),
    ensures
        match r {
            Some(i) => i < records@.len() && records@[i as int].id@ == id@ && has_id(
                records@,
                id@,
            ) && idx_of(records@, id@) == i as int,
            None => !has_id(records@, id@),
        },
{
    let mut i: usize = 0;
    while i < records.len()
        invariant
            distinct_ids(records@),
            i <= records@.len(),
            forall|j: int| 0 <= j < i ==> records@[j].id@ != id@,
        decreases records@.len() - i,
    {
        if records[i].id == *id {
            proof {
                assert(records@[i as int].id@ == id@);
                assert(has_id(records@, id@));
                lemma_idx_of(records@, id@);
                let w = idx_of(records@, id@);
                if w != i as int {
                    assert(records@[w].id@ == records@[i as int].id@);
                    assert(false);
                }
            }
            return Some(i);
        }
        i = i + 1;
    }
    None
}

/// Whether the list of in-use image ids holds `id`.
pub fn id_list_contains(ids: &Vec<String>, id: &String) -> (r: bool)
    ensures
        r == id_list_has(ids@, id@),
{
    let mut i: usize = 0;
    while i < ids.len()
        invariant
            i <= ids@.len(),
            forall|j: int| 0 <= j < i ==> ids@[j]@ != id@,
        decreases ids@.len() - i,
    {
        if ids[i] == *id {
            proof {
                assert(ids@[i as int]@ == id@);
            }
            return true;
        }
        i = i + 1;
    }
    false
}

/// The index of the resolved parent of the entry at `i`: `None` when the
/// entry has no parent id or names an id absent from the set.
fn resolve_parent(records: &Vec<RecordEntry>, i: usize) -> (r: Option<usize>)
    requires
        distinct_ids(records@),
        i < records@.len(),
    ensures
        match r {
            Some(p) => parent_idx(records@, i as int) == Option::Some(p as int) && p
                < records@.len(),
            None => parent_idx(records@, i as int) == Option::<int>::None,
        },
{
    match &records[i].record.parent_id {
        Some(pid) => find_record(records, pid),
        None => None,
    }
}

/// The number of resolved ancestors of the entry at `i`: the length of the
/// chain of parent links from the entry to its root, whenever that chain
/// ends at a root.
fn ancestor_count(records: &Vec<RecordEntry>, i: usize) -> (c: usize)
    requires
        distinct_ids(records@),
        i < records@.len(),
    ensures
        chain_ends(records@, i as int) ==> rooted_at(records@, i as int, c as nat),
{
    let ghost s = records@;
    let n = records.len();
    let mut j = i;
    let mut c: usize = 0;
    while c < n
        invariant
            distinct_ids(s),
            s == records@,
            n == s.len(),
            i < n,
            j < n,
            c <= n,
            anc_at(s, i as int, c as nat) == Option::Some(j as int),
        decreases n - c,
    {
        match resolve_parent(records, j) {
            Some(p) => {
                proof {
                    assert(anc_at(s, i as int, (c + 1) as nat) == parent_idx(s, j as int));
                }
                j = p;
                c = c + 1;
            },
            None => {
                proof {
                    assert(rooted_at(s, i as int, c as nat));
                }
                return c;
            },
        }
    }
    proof {
        if chain_ends(s, i as int) {
            let k = choose|k: nat| k < s.len() && #[trigger] rooted_at(s, i as int, k);
            match anc_at(s, i as int, k) {
                Option::Some(jr) => {
                    assert(anc_at(s, i as int, (k + 1) as nat) == Option::<int>::None);
                    lemma_anc_none_stays(s, i as int, (k + 1) as nat, n as nat);
                    assert(false);
                },
                Option::None => {
                    assert(false);
                },
            }
        }
    }
    c
}

/// Whether the resolved parent chain of the entry at `d` passes through the
/// entry at `a`. When the chain from `d` ends at a root, the answer is
/// exact; a `true` answer is reliable regardless.
fn reaches_above(records: &Vec<RecordEntry>, d: usize, a: usize) -> (r: bool)
    requires
        distinct_ids(records@),
        d < records@.len(),
        a < records@.len(),
    ensures
        r ==> reaches(records@, d as int, a as int),
        chain_ends(records@, d as int) ==> r == reaches(records@, d as int, a as int),
{
    let ghost s = records@;
    let n = records.len();
    let mut j = d;
    let mut c: usize = 0;
    while c < n
        invariant
            distinct_ids(s),
            s == records@,
            n == s.len(),
            d < n,
            a < n,
            j < n,
            c <= n,
            anc_at(s, d as int, c as nat) == Option::Some(j as int),
            forall|k: nat| k < c ==> anc_at(s, d as int, k) != Option::<int>::Some(a as int),
        decreases n - c,
    {
        if j == a {
            proof {
                assert(anc_at(s, d as int, c as nat) == Option::<int>::Some(a as int));
            }
            return true;
        }
        match resolve_parent(records, j) {
            Some(p) => {
                proof {
                    assert(anc_at(s, d as int, (c + 1) as nat) == parent_idx(s, j as int));
                }
                j = p;
                c = c + 1;
            },
            None => {
                proof {
                    assert(anc_at(s, d as int, (c + 1) as nat) == Option::<int>::None);
                    assert forall|k: nat|
                        anc_at(s, d as int, k) != Option::<int>::Some(a as int) by {
                        if k < c {
                        } else if k == c {
                            assert(j != a);
                        } else {
                            lemma_anc_none_stays(s, d as int, (c + 1) as nat, k);
                        }
                    }
                    assert(!reaches(s, d as int, a as int));
                }
                return false;
            },
        }
    }
    proof {
        if chain_ends(s, d as int) {
            let k = choose|k: nat| k < s.len() && #[trigger] rooted_at(s, d as int, k);
            match anc_at(s, d as int, k) {
                Option::Some(jr) => {
                    assert(anc_at(s, d as int, (k + 1) as nat) == Option::<int>::None);
                    lemma_anc_none_stays(s, d as int, (k + 1) as nat, n as nat);
                    assert(false);
                },
                Option::None => {
                    assert(false);
                },
            }
        }
    }
    false
}

/// The last-used instant a node starts the pass with; see
/// [`spec_initial_used`].
fn initial_used(
    state: &State,
    first_run: bool,
    e: &RecordEntry,
    in_use: &Vec<String>,
    now: u64,
) -> (t: u64)
    requires
        state_distinct(state.images@),
    ensures
        t == spec_initial_used(state.images@, first_run, in_use@, *e, now),
{
    let base = match state.find(&e.id) {
        Some(i) => state.images[i].image.last_used_since_epoch,
        None => if first_run {
            e.record.created_since_epoch
        } else {
            now
        },
    };
    if id_list_contains(in_use, &e.id) {
        if base >= now {
            base
        } else {
            now
        }
    } else {
        base
    }
}

/// The propagated last-used instant of the node at `a`: the largest starting
/// instant among the nodes that reach `a`, exact whenever the record set is
/// acyclic.
fn propagated_used(records: &Vec<RecordEntry>, base: &Vec<u64>, a: usize) -> (v: u64)
    requires
        distinct_ids(records@),
        a < records@.len(),
        base@.len() == records@.len(),
    ensures
        used_in_subtree(records@, base@, a as int, v),
        acyclic(records@) ==> is_subtree_max(records@, base@, a as int, v),
{
    let ghost s = records@;
    let n = records.len();
    let mut v = base[a];
    proof {
        lemma_reaches_self(s, a as int);
    }
    let mut d: usize = 0;
    while d < n
        invariant
            distinct_ids(s),
            s == records@,
            n == s.len(),
            a < n,
            base@.len() == n,
            d <= n,
            used_in_subtree(s, base@, a as int, v),
            acyclic(s) ==> forall|dd: int|
                0 <= dd < d && #[trigger] reaches(s, dd, a as int) ==> base@[dd] <= v,
        decreases n - d,
    {
        if reaches_above(records, d, a) {
            if base[d] > v {
                v = base[d];
            }
        }
        d = d + 1;
    }
    v
}

/// The node keyed by `id`, if the forest holds one.
pub fn find_node<'a>(forest: &'a Vec<NodeEntry>, id: &String) -> (r: Option<&'a ImageNode>)
    ensures
        match r {
            Some(node) => exists|i: int|
                0 <= i < forest@.len() && (#[trigger] forest@[i]).id@ == id@ && *node
                    == forest@[i].node,
            None => forall|i: int| 0 <= i < forest@.len() ==> (#[trigger] forest@[i]).id@ != id@,
        },
{
    let mut i: usize = 0;
    while i < forest.len()
        invariant
            i <= forest@.len(),
            forall|j: int| 0 <= j < i ==> (#[trigger] forest@[j]).id@ != id@,
        decreases forest@.len() - i,
    {
        if forest[i].id == *id {
            proof {
                assert(forest@[i as int].id@ == id@);
            }
            return Some(&forest[i].node);
        }
        i = i + 1;
    }
    None
}

/// Invariant propagation: once every node carries the largest starting
/// instant of its subtree, a parent's last-used instant is at least every
/// child's.
pub proof fn lemma_parent_at_least_child(
    s: Seq<RecordEntry>,
    base: Seq<u64>,
    i: int,
    p: int,
    vi: u64,
    vp: u64,
)
    requires
        0 <= i < s.len(),
        parent_idx(s, i) == Option::<int>::Some(p),
        is_subtree_max(s, base, i, vi),
        is_subtree_max(s, base, p, vp),
    ensures
        vp >= vi,
{
    let d = choose|d: int| 0 <= d < s.len() && #[trigger] reaches(s, d, i) && base[d] == vi;
    lemma_reaches_parent(s, d, i, p);
}

/// Build the polyforest for one vacuum pass: one node per record, in record
/// order, carrying the record itself, the number of resolved ancestors, and
/// the propagated last-used instant (each node's instant is the largest
/// starting instant in its subtree, so a parent is never considered staler
/// than a descendant). A record whose parent id is absent from the set is a
/// root for the pass.
pub fn construct_polyforest(
    state: &State,
    first_run: bool,
    image_records: Vec<RecordEntry>,
    image_ids_in_use: &Vec<String>,
    now_since_epoch: u64,
) -> (forest: Vec<NodeEntry>)
    requires
        distinct_ids(image_records@),
        state_distinct(state.images@),
    ensures
        forest@.len() == image_records@.len(),
        forall|i: int|
            #![trigger forest@[i]]
            0 <= i < forest@.len() ==> forest@[i].id == image_records@[i].id
                && forest@[i].node.image_record == image_records@[i].record,
        forall|i: int|
            #![trigger forest@[i]]
            0 <= i < forest@.len() ==> (chain_ends(image_records@, i) ==> rooted_at(
                image_records@,
                i,
                forest@[i].node.ancestors as nat,
            )),
        forall|i: int|
            #![trigger forest@[i]]
            0 <= i < forest@.len() ==> used_in_subtree(
                image_records@,
                baselines_of(
                    state.images@,
                    first_run,
                    image_ids_in_use@,
                    image_records@,
                    now_since_epoch,
                ),
                i,
                forest@[i].node.last_used_since_epoch,
            ),
        acyclic(image_records@) ==> forall|i: int|
            #![trigger forest@[i]]
            0 <= i < forest@.len() ==> is_subtree_max(
                image_records@,
                baselines_of(
                    state.images@,
                    first_run,
                    image_ids_in_use@,
                    image_records@,
                    now_since_epoch,
                ),
                i,
                forest@[i].node.last_used_since_epoch,
            ),
        acyclic(image_records@) ==> forall|i: int, p: int|
            0 <= i < forest@.len() && parent_idx(image_records@, i) == Option::<int>::Some(p)
                ==> (#[trigger] forest@[p]).node.last_used_since_epoch
                >= (#[trigger] forest@[i]).node.last_used_since_epoch,
{
    let ghost s = image_records@;
    let ghost base = baselines_of(
        state.images@,
        first_run,
        image_ids_in_use@,
        s,
        now_since_epoch,
    );
    let n = image_records.len();

    // The starting instant of every node, before propagation.
    let mut starts: Vec<u64> = Vec::new();
    let mut i: usize = 0;
    while i < n
        invariant
            state_distinct(state.images@),
            s == image_records@,
            n == s.len(),
            base == baselines_of(state.images@, first_run, image_ids_in_use@, s, now_since_epoch),
            i <= n,
            starts@.len() == i as int,
            forall|j: int| 0 <= j < i ==> #[trigger] starts@[j] == base[j],
        decreases n - i,
    {
        let t = initial_used(state, first_run, &image_records[i], image_ids_in_use, now_since_epoch);
        starts.push(t);
        i = i + 1;
    }
    proof {
        assert(starts@ =~= base);
    }

    // Propagate: each node's instant becomes the largest in its subtree.
    let mut used: Vec<u64> = Vec::new();
    i = 0;
    while i < n
        invariant
            distinct_ids(s),
            s == image_records@,
            n == s.len(),
            starts@ == base,
            starts@.len() == n,
            i <= n,
            used@.len() == i as int,
            forall|j: int|
                0 <= j < i ==> #[trigger] used_in_subtree(s, base, j, used@[j]),
            acyclic(s) ==> forall|j: int|
                0 <= j < i ==> #[trigger] is_subtree_max(s, base, j, used@[j]),
        decreases n - i,
    {
        let v = propagated_used(&image_records, &starts, i);
        used.push(v);
        i = i + 1;
    }

    // Count each node's resolved ancestors.
    let mut counts: Vec<usize> = Vec::new();
    i = 0;
    while i < n
        invariant
            distinct_ids(s),
            s == image_records@,
            n == s.len(),
            i <= n,
            counts@.len() == i as int,
            forall|j: int|
                #![trigger counts@[j]]
                0 <= j < i ==> (chain_ends(s, j) ==> rooted_at(s, j, counts@[j] as nat)),
        decreases n - i,
    {
        let c = ancestor_count(&image_records, i);
        counts.push(c);
        i = i + 1;
    }

    // Assemble the forest, consuming the records in order.
    let mut forest: Vec<NodeEntry> = Vec::new();
    let mut records = image_records;
    while records.len() > 0
        invariant
            n == s.len(),
            used@.len() == n,
            counts@.len() == n,
            forest@.len() + records@.len() == n,
            records@ == s.subrange(forest@.len() as int, n as int),
            forall|j: int|
                #![trigger forest@[j]]
                0 <= j < forest@.len() ==> forest@[j].id == s[j].id && forest@[j].node.image_record
                    == s[j].record && forest@[j].node.last_used_since_epoch == used@[j]
                    && forest@[j].node.ancestors == counts@[j],
        decreases records@.len(),
    {
        let k = forest.len();
        let last_used_since_epoch = used[k];
        let ancestors = counts[k];
        let e = records.remove(0);
        proof {
            assert(e == s[k as int]);
            assert(records@ =~= s.subrange(k as int + 1, n as int));
        }
        forest.push(
            NodeEntry {
                id: e.id,
                node: ImageNode { image_record: e.record, last_used_since_epoch, ancestors },
            },
        );
    }
    proof {
        if acyclic(s) {
            assert forall|i2: int, p: int|
                0 <= i2 < forest@.len() && parent_idx(s, i2) == Option::<int>::Some(
                    p,
                ) implies (#[trigger] forest@[p]).node.last_used_since_epoch
                >= (#[trigger] forest@[i2]).node.last_used_since_epoch by {
                crate::image::lemma_parent_idx_range(s, i2, p);
                lemma_parent_at_least_child(
                    s,
                    base,
                    i2,
                    p,
                    forest@[i2].node.last_used_since_epoch,
                    forest@[p].node.last_used_since_epoch,
                );
            }
        }
    }
    forest
}

} // verus!
