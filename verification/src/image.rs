//! Image records and the parent-chain model of the image polyforest.
//!
//! The record collector hands the engine a flat set of image records, each
//! carrying an optional parent id. Parent links whose target is absent from
//! the record set are treated as missing, so every record set induces a
//! polyforest: each node has at most one resolved parent. The spec functions
//! here follow resolved parent links and define what it means for the set to
//! be acyclic, which the rest of the engine's contracts build on.

use vstd::prelude::*;

verus! {

/// One `repository:tag` label attached to an image.
#[derive(Clone, Debug, PartialEq, Eq)]
pub struct RepositoryTag {
    pub repository: String,
    pub tag: String,
}

/// What the record collector reports about one image. The image id itself is
/// kept beside the record in a [`RecordEntry`].
#[derive(Clone, Debug, PartialEq, Eq)]
pub struct ImageRecord {
    /// Id of the parent image; it may name an id absent from the record set.
    pub parent_id: Option<String>,
    /// Seconds between the UNIX epoch and the image's creation.
    pub created_since_epoch: u64,
    /// The labels attached to the image; the collector reports at least one.
    pub repository_tags: Vec<RepositoryTag>,
}

/// An image record keyed by its image id.
pub struct RecordEntry {
    pub id: String,
    pub record: ImageRecord,
}

/// A node of the image polyforest, derived afresh from a [`RecordEntry`]
/// every vacuum pass.
#[derive(Clone, Debug, PartialEq, Eq)]
pub struct ImageNode {
    pub image_record: ImageRecord,
    /// Seconds between the UNIX epoch and the node's last use, after
    /// propagation from its descendants.
    pub last_used_since_epoch: u64,
    /// Number of resolved ancestors; zero for a root.
    pub ancestors: usize,
}

/// An image node keyed by its image id.
pub struct NodeEntry {
    pub id: String,
    pub node: ImageNode,
}

/// An owned copy of an optional image id, equal to the one given.
pub fn clone_optional_id(p: &Option<String>) -> (r: Option<String>)
    ensures
        r == *p,
{
    match p {
        Some(id) => Some(id.clone()),
        None => None,
    }
}

/// No two entries carry the same image id.
pub open spec fn distinct_ids(s: Seq<RecordEntry>) -> bool {
    forall|i: int, j: int| 0 <= i < j < s.len() ==> s[i].id@ != s[j].id@
}

/// Some entry carries the id.
pub open spec fn has_id(s: Seq<RecordEntry>, id: Seq<char>) -> bool {
    exists|i: int| 0 <= i < s.len() && s[i].id@ == id
}

/// The index of the entry carrying the id; meaningful when `has_id` holds
/// and the ids are distinct.
pub open spec fn idx_of(s: Seq<RecordEntry>, id: Seq<char>) -> int {
    choose|i: int| 0 <= i < s.len() && s[i].id@ == id
}

/// The index of the resolved parent of the entry at `i`: `None` when the
/// entry has no parent id, or when the parent id is absent from the set.
pub open spec fn parent_idx(s: Seq<RecordEntry>, i: int) -> Option<int> {
    match s[i].record.parent_id {
        Option::Some(p) => if has_id(s, p@) {
            Option::Some(idx_of(s, p@))
        } else {
            Option::None
        },
        Option::None => Option::None,
    }
}

/// The `k`-th ancestor of the entry at `i` along resolved parent links;
/// `None` once the chain has ended at a root.
pub open spec fn anc_at(s: Seq<RecordEntry>, i: int, k: nat) -> Option<int>
    decreases k,
{
    if k == 0 {
        Option::Some(i)
    } else {
        match anc_at(s, i, (k - 1) as nat) {
            Option::Some(j) => parent_idx(s, j),
            Option::None => Option::None,
        }
    }
}

/// The entry at `a` lies on the resolved parent chain of the entry at `d`
/// (or is that entry itself).
pub open spec fn reaches(s: Seq<RecordEntry>, d: int, a: int) -> bool {
    exists|k: nat| anc_at(s, d, k) == Option::<int>::Some(a)
}

/// The chain upward from the entry at `i` ends at a root after exactly `k`
/// steps.
pub open spec fn rooted_at(s: Seq<RecordEntry>, i: int, k: nat) -> bool {
    match anc_at(s, i, k) {
        Option::Some(j) => parent_idx(s, j) == Option::<int>::None,
        Option::None => false,
    }
}

/// The chain of resolved parent links upward from the entry at `i` ends at
/// a root in fewer steps than there are entries.
pub open spec fn chain_ends(s: Seq<RecordEntry>, i: int) -> bool {
    exists|k: nat| k < s.len() && #[trigger] rooted_at(s, i, k)
}

/// Every chain of resolved parent links ends at a root: the record set is a
/// polyforest.
pub open spec fn acyclic(s: Seq<RecordEntry>) -> bool {
    forall|i: int| 0 <= i < s.len() ==> #[trigger] chain_ends(s, i)
}

/// When the set holds the id, `idx_of` points at the entry carrying it.
pub proof fn lemma_idx_of(s: Seq<RecordEntry>, id: Seq<char>)
    requires
        has_id(s, id),
    ensures
        0 <= idx_of(s, id) < s.len(),
        s[idx_of(s, id)].id@ == id,
{
    let i = choose|i: int| 0 <= i < s.len() && s[i].id@ == id;
    assert(0 <= i < s.len() && s[i].id@ == id);
}

/// A resolved parent index is in range.
pub proof fn lemma_parent_idx_range(s: Seq<RecordEntry>, i: int, p: int)
    requires
        parent_idx(s, i) == Option::Some(p),
    ensures
        0 <= p < s.len(),
{
    match s[i].record.parent_id {
        Option::Some(pid) => {
            lemma_idx_of(s, pid@);
        },
        Option::None => {},
    }
}

/// Once the chain has ended, it stays ended.
pub proof fn lemma_anc_none_stays(s: Seq<RecordEntry>, i: int, k1: nat, k2: nat)
    requires
        anc_at(s, i, k1) == Option::<int>::None,
        k1 <= k2,
    ensures
        anc_at(s, i, k2) == Option::<int>::None,
    decreases k2,
{
    if k1 < k2 {
        lemma_anc_none_stays(s, i, k1, (k2 - 1) as nat);
    }
}

/// A chain ends at a root after exactly one number of steps.
pub proof fn lemma_rooted_at_unique(s: Seq<RecordEntry>, i: int, k1: nat, k2: nat)
    requires
        rooted_at(s, i, k1),
        rooted_at(s, i, k2),
    ensures
        k1 == k2,
{
    if k1 < k2 {
        assert(anc_at(s, i, (k1 + 1) as nat) == Option::<int>::None);
        lemma_anc_none_stays(s, i, (k1 + 1) as nat, k2);
    } else if k2 < k1 {
        assert(anc_at(s, i, (k2 + 1) as nat) == Option::<int>::None);
        lemma_anc_none_stays(s, i, (k2 + 1) as nat, k1);
    }
}

/// Walking `k` steps from a node is walking `k - 1` steps from its parent.
pub proof fn lemma_anc_at_step(s: Seq<RecordEntry>, i: int, p: int, k: nat)
    requires
        parent_idx(s, i) == Option::Some(p),
        k >= 1,
    ensures
        anc_at(s, i, k) == anc_at(s, p, (k - 1) as nat),
    decreases k,
{
    if k == 1 {
        assert(anc_at(s, i, 1) == parent_idx(s, i));
    } else {
        lemma_anc_at_step(s, i, p, (k - 1) as nat);
    }
}

/// A parentless node is a root with ancestor count zero.
pub proof fn lemma_root_rooted_at_zero(s: Seq<RecordEntry>, i: int)
    requires
        parent_idx(s, i) == Option::<int>::None,
    ensures
        rooted_at(s, i, 0),
{
}

/// A node sits one step further from the root than its resolved parent.
pub proof fn lemma_child_depth(s: Seq<RecordEntry>, i: int, p: int, k: nat)
    requires
        parent_idx(s, i) == Option::Some(p),
        rooted_at(s, p, k),
    ensures
        rooted_at(s, i, (k + 1) as nat),
{
    lemma_anc_at_step(s, i, p, (k + 1) as nat);
}

/// Ancestor-count correctness, root case: a node without a resolved parent
/// counts zero ancestors.
pub proof fn lemma_root_count_zero(s: Seq<RecordEntry>, i: int, c: nat)
    requires
        parent_idx(s, i) == Option::<int>::None,
        rooted_at(s, i, c),
    ensures
        c == 0,
{
    lemma_root_rooted_at_zero(s, i);
    lemma_rooted_at_unique(s, i, c, 0);
}

/// Ancestor-count correctness, child case: a node with a resolved parent
/// counts one ancestor more than that parent.
pub proof fn lemma_child_count(s: Seq<RecordEntry>, i: int, p: int, ci: nat, cp: nat)
    requires
        parent_idx(s, i) == Option::Some(p),
        rooted_at(s, i, ci),
        rooted_at(s, p, cp),
    ensures
        ci == cp + 1,
{
    lemma_child_depth(s, i, p, cp);
    lemma_rooted_at_unique(s, i, ci, (cp + 1) as nat);
}

/// Whatever reaches a node also reaches the node's resolved parent.
pub proof fn lemma_reaches_parent(s: Seq<RecordEntry>, d: int, i: int, p: int)
    requires
        reaches(s, d, i),
        parent_idx(s, i) == Option::Some(p),
    ensures
        reaches(s, d, p),
{
    let k = choose|k: nat| anc_at(s, d, k) == Option::<int>::Some(i);
    assert(anc_at(s, d, (k + 1) as nat) == Option::Some(p));
}

/// Every node reaches itself.
pub proof fn lemma_reaches_self(s: Seq<RecordEntry>, i: int)
    ensures
        reaches(s, i, i),
{
    assert(anc_at(s, i, 0) == Option::Some(i));
}

} // verus!
