//! The eviction planner: rank every node of the polyforest from least to
//! most recently used (preferring deeper nodes on ties), and drop the nodes
//! that the keep patterns or the minimum age protect. What survives is the
//! ordered list of deletion candidates for the pass.

use vstd::prelude::*;
use vstd::string::StringExecFns;

use regex::RegexSet;

use crate::failure::Failure;
use crate::image::{NodeEntry, RepositoryTag};

verus! {

broadcast use vstd::seq_lib::group_to_multiset_ensures, vstd::multiset::group_multiset_axioms;

#[verifier::external_type_specification]
#[verifier::external_body]
pub struct ExRegexSet(RegexSet);

/// What the compiled pattern set matches. A `regex::RegexSet` holds a fixed
/// collection of patterns, so whether it matches a haystack is a function of
/// the set and the haystack alone; this names that relation.
pub uninterp spec fn regex_set_match(rs: RegexSet, s: Seq<char>) -> bool;

/// Relies on `regex::RegexSet::is_match`: true if and only if one of the
/// patterns in the set matches the haystack, a deterministic function of the
/// compiled set and the haystack.
#[verifier::external_body]
fn regex_set_is_match(rs: &RegexSet, haystack: &str) -> (r: bool)
    ensures
        r == regex_set_match(*rs, haystack@),
{
    rs.is_match(haystack)
}

/// The `repository:tag` label of one tag pair.
pub open spec fn spec_label(t: RepositoryTag) -> Seq<char> {
    t.repository@ + ":"@ + t.tag@
}

/// Render the `repository:tag` label of one tag pair.
pub fn label_of(t: &RepositoryTag) -> (r: String)
    ensures
        r@ == spec_label(*t),
{
    t.repository.clone().concat(":").concat(t.tag.as_str())
}

/// Whether some label of the node matches the keep-pattern set.
pub open spec fn keep_matched(rs: RegexSet, node: crate::image::ImageNode) -> bool {
    exists|t: int|
        0 <= t < node.image_record.repository_tags@.len() && regex_set_match(
            rs,
            spec_label(#[trigger] node.image_record.repository_tags@[t]),
        )
}

/// Whether the configured keep patterns protect the node from eviction.
pub open spec fn spec_kept(keep: Option<&RegexSet>, node: crate::image::ImageNode) -> bool {
    match keep {
        Option::Some(rs) => keep_matched(*rs, node),
        Option::None => false,
    }
}

/// Whether a node last used at `t` is old enough to evict: at least
/// `min_age` seconds must have passed since its last use.
pub open spec fn age_ok(min_age: Option<u64>, now: u64, t: u64) -> bool {
    match min_age {
        Option::Some(m) => t + m <= now,
        Option::None => true,
    }
}

/// Whether the keep patterns protect the node.
fn node_kept(keep: Option<&RegexSet>, node: &crate::image::ImageNode) -> (r: bool)
    ensures
        r == spec_kept(keep, *node),
{
    match keep {
        Some(rs) => {
            let mut t: usize = 0;
            while t < node.image_record.repository_tags.len()
                invariant
                    keep == Option::Some(rs),
                    t <= node.image_record.repository_tags@.len(),
                    forall|j: int|
                        0 <= j < t ==> !regex_set_match(
                            *rs,
                            spec_label(#[trigger] node.image_record.repository_tags@[j]),
                        ),
                decreases node.image_record.repository_tags@.len() - t,
            {
                let label = label_of(&node.image_record.repository_tags[t]);
                if regex_set_is_match(rs, label.as_str()) {
                    proof {
                        assert(regex_set_match(
                            *rs,
                            spec_label(node.image_record.repository_tags@[t as int]),
                        ));
                        assert(keep_matched(*rs, *node));
                    }
                    return true;
                }
                t = t + 1;
            }
            false
        },
        None => false,
    }
}

/// One entry of the ordered deletion-candidate list: an image eligible for
/// eviction, with the two keys its rank is drawn from.
#[derive(Clone, Debug, PartialEq, Eq)]
pub struct Candidate {
    pub id: String,
    pub last_used_since_epoch: u64,
    pub ancestors: usize,
}

/// Eviction order: least recently used first; on equal instants, the deeper
/// node (more ancestors) first.
pub open spec fn eviction_le(a: Candidate, b: Candidate) -> bool {
    a.last_used_since_epoch < b.last_used_since_epoch || (a.last_used_since_epoch
        == b.last_used_since_epoch && a.ancestors >= b.ancestors)
}

/// The candidates stand in eviction order.
pub open spec fn eviction_sorted(c: Seq<Candidate>) -> bool {
    forall|i: int, j: int| 0 <= i < j < c.len() ==> eviction_le(#[trigger] c[i], #[trigger] c[j])
}

/// `c` is the candidate drawn from the node at index `i` of the forest.
pub open spec fn from_node(f: Seq<NodeEntry>, c: Candidate, i: int) -> bool {
    &&& 0 <= i < f.len()
    &&& c.id == f[i].id
    &&& c.last_used_since_epoch == f[i].node.last_used_since_epoch
    &&& c.ancestors == f[i].node.ancestors
}

/// Whether a node escapes both exclusions and so yields a candidate.
pub open spec fn eligible(
    keep: Option<&RegexSet>,
    min_age: Option<u64>,
    now: u64,
) -> spec_fn(NodeEntry) -> bool {
    |e: NodeEntry| !spec_kept(keep, e.node) && age_ok(min_age, now, e.node.last_used_since_epoch)
}

/// The candidate is drawn from some node of the forest that neither the
/// keep patterns nor the minimum age protect.
pub open spec fn candidate_ok(
    f: Seq<NodeEntry>,
    keep: Option<&RegexSet>,
    min_age: Option<u64>,
    now: u64,
    c: Candidate,
) -> bool {
    exists|i: int|
        #[trigger] from_node(f, c, i) && !spec_kept(keep, f[i].node) && age_ok(
            min_age,
            now,
            c.last_used_since_epoch,
        )
}

/// Some candidate in the list is drawn from the node at index `i` of the
/// forest.
pub open spec fn covered(f: Seq<NodeEntry>, c: Seq<Candidate>, i: int) -> bool {
    exists|j: int| 0 <= j < c.len() && #[trigger] from_node(f, c[j], i)
}

/// Adding a candidate to the list keeps every node covered.
proof fn lemma_covered_push(f: Seq<NodeEntry>, c: Seq<Candidate>, x: Candidate, i: int)
    requires
        covered(f, c, i),
    ensures
        covered(f, c.push(x), i),
{
    let j = choose|j: int| 0 <= j < c.len() && #[trigger] from_node(f, c[j], i);
    assert(c.push(x)[j] == c[j]);
    assert(from_node(f, c.push(x)[j], i));
}

/// Eviction order decided at run time; see [`eviction_le`].
fn candidate_le(a: &Candidate, b: &Candidate) -> (r: bool)
    ensures
        r == eviction_le(*a, *b),
{
    a.last_used_since_epoch < b.last_used_since_epoch || (a.last_used_since_epoch
        == b.last_used_since_epoch && a.ancestors >= b.ancestors)
}

/// Draw one candidate per eligible node: the keep patterns and the minimum
/// age exclude a node from candidacy; every other node yields a candidate.
fn collect_candidates(
    forest: &Vec<NodeEntry>,
    keep: Option<&RegexSet>,
    min_age: Option<u64>,
    now: u64,
) -> (c: Vec<Candidate>)
    ensures
        c@.len() == forest@.filter(eligible(keep, min_age, now)).len(),
        forall|j: int|
            0 <= j < c@.len() ==> #[trigger] candidate_ok(forest@, keep, min_age, now, c@[j]),
        forall|i: int|
            #![trigger forest@[i]]
            0 <= i < forest@.len() && !spec_kept(keep, forest@[i].node) && age_ok(
                min_age,
                now,
                forest@[i].node.last_used_since_epoch,
            ) ==> covered(forest@, c@, i),
{
    let ghost pred = eligible(keep, min_age, now);
    let mut c: Vec<Candidate> = Vec::new();
    let mut i: usize = 0;
    while i < forest.len()
        invariant
            i <= forest@.len(),
            pred == eligible(keep, min_age, now),
            c@.len() == forest@.subrange(0, i as int).filter(pred).len(),
            forall|j: int|
                0 <= j < c@.len() ==> #[trigger] candidate_ok(forest@, keep, min_age, now, c@[j]),
            forall|ii: int|
                #![trigger forest@[ii]]
                0 <= ii < i && !spec_kept(keep, forest@[ii].node) && age_ok(
                    min_age,
                    now,
                    forest@[ii].node.last_used_since_epoch,
                ) ==> covered(forest@, c@, ii),
        decreases forest@.len() - i,
    {
        let node = &forest[i].node;
        let old_enough = match min_age {
            Some(m) => node.last_used_since_epoch <= now && m <= now - node.last_used_since_epoch,
            None => true,
        };
        proof {
            assert(old_enough == age_ok(min_age, now, node.last_used_since_epoch));
        }
        if old_enough && !node_kept(keep, node) {
            let cand = Candidate {
                id: forest[i].id.clone(),
                last_used_since_epoch: node.last_used_since_epoch,
                ancestors: node.ancestors,
            };
            let ghost c0 = c@;
            let ghost candv = cand;
            c.push(cand);
            proof {
                assert(from_node(forest@, candv, i as int));
                assert(!spec_kept(keep, forest@[i as int].node));
                assert(candidate_ok(forest@, keep, min_age, now, candv));
                assert(c@[c@.len() - 1] == candv);
                assert forall|ii: int|
                    0 <= ii < i + 1 && !spec_kept(keep, forest@[ii].node) && age_ok(
                        min_age,
                        now,
                        forest@[ii].node.last_used_since_epoch,
                    ) implies covered(forest@, c@, ii) by {
                    if ii < i as int {
                        lemma_covered_push(forest@, c0, candv, ii);
                    } else {
                        assert(from_node(forest@, c@[c@.len() - 1], ii));
                        assert(covered(forest@, c@, ii));
                    }
                }
            }
        }
        proof {
            let sub0 = forest@.subrange(0, i as int);
            let sub1 = forest@.subrange(0, i as int + 1);
            assert(sub1 =~= sub0.push(forest@[i as int]));
            Seq::lemma_filter_push(sub0, forest@[i as int], pred);
            assert(pred(forest@[i as int]) == (old_enough && !spec_kept(
                keep,
                forest@[i as int].node,
            )));
        }
        i = i + 1;
    }
    proof {
        assert(forest@.subrange(0, forest@.len() as int) =~= forest@);
    }
    c
}

/// Order the candidates for eviction: least recently used first, and the
/// deeper node first among equally stale ones.
fn sort_candidates(cands: Vec<Candidate>) -> (out: Vec<Candidate>)
    ensures
        out@.len() == cands@.len(),
        out@.to_multiset() == cands@.to_multiset(),
        eviction_sorted(out@),
{
    let mut input = cands;
    let mut out: Vec<Candidate> = Vec::new();
    while input.len() > 0
        invariant
            out@.len() + input@.len() == cands@.len(),
            out@.to_multiset().add(input@.to_multiset()) == cands@.to_multiset(),
            eviction_sorted(out@),
            forall|x: int, y: int|
                0 <= x < out@.len() && 0 <= y < input@.len() ==> eviction_le(
                    #[trigger] out@[x],
                    #[trigger] input@[y],
                ),
        decreases input@.len(),
    {
        let mut m: usize = 0;
        let mut t: usize = 1;
        while t < input.len()
            invariant
                m < t,
                t <= input@.len(),
                input@.len() > 0,
                forall|j: int| 0 <= j < t ==> eviction_le(input@[m as int], #[trigger] input@[j]),
            decreases input@.len() - t,
        {
            if candidate_le(&input[t], &input[m]) {
                m = t;
            }
            t = t + 1;
        }
        let ghost old_out = out@;
        let ghost old_input = input@;
        let e = input.remove(m);
        out.push(e);
        proof {
            assert(old_input.to_multiset().remove(e) == input@.to_multiset());
            assert(out@.to_multiset() == old_out.to_multiset().insert(e));
            assert(old_input.to_multiset().count(e) > 0) by {
                assert(old_input[m as int] == e);
                assert(old_input.contains(e));
            }
            assert(out@.to_multiset().add(input@.to_multiset()) =~= cands@.to_multiset());
            assert forall|x: int, y: int|
                0 <= x < out@.len() && 0 <= y < input@.len() implies eviction_le(
                #[trigger] out@[x],
                #[trigger] input@[y],
            ) by {
                assert(input@[y] == old_input[if y < m as int {
                    y
                } else {
                    y + 1
                }]);
                if x < out@.len() - 1 {
                    assert(out@[x] == old_out[x]);
                } else {
                    assert(out@[x] == e);
                }
            }
        }
    }
    out
}

/// No two nodes of the forest carry the same image id.
pub open spec fn nodes_distinct(f: Seq<NodeEntry>) -> bool {
    forall|i: int, j: int| 0 <= i < j < f.len() ==> f[i].id@ != f[j].id@
}

/// Keep-pattern exclusion: an image one of whose labels matches a keep
/// pattern never appears in the deletion-candidate list, regardless of how
/// stale it is.
pub proof fn lemma_kept_image_never_candidate(
    f: Seq<NodeEntry>,
    keep: Option<&RegexSet>,
    min_age: Option<u64>,
    now: u64,
    c: Seq<Candidate>,
    i: int,
)
    requires
        nodes_distinct(f),
        forall|j: int| 0 <= j < c.len() ==> #[trigger] candidate_ok(f, keep, min_age, now, c[j]),
        0 <= i < f.len(),
        spec_kept(keep, f[i].node),
    ensures
        forall|j: int| 0 <= j < c.len() ==> (#[trigger] c[j]).id@ != f[i].id@,
{
    assert forall|j: int| 0 <= j < c.len() implies (#[trigger] c[j]).id@ != f[i].id@ by {
        if c[j].id@ == f[i].id@ {
            assert(candidate_ok(f, keep, min_age, now, c[j]));
            let ii = choose|ii: int|
                #[trigger] from_node(f, c[j], ii) && !spec_kept(keep, f[ii].node) && age_ok(
                    min_age,
                    now,
                    c[j].last_used_since_epoch,
                );
            if ii != i {
                assert(f[ii].id@ == f[i].id@);
                assert(false);
            }
        }
    }
}

/// Minimum-age exclusion: an image last used more recently than
/// `now - min_age` never appears in the deletion-candidate list, however
/// much pressure there is.
pub proof fn lemma_young_image_never_candidate(
    f: Seq<NodeEntry>,
    keep: Option<&RegexSet>,
    min_age: Option<u64>,
    now: u64,
    c: Seq<Candidate>,
    i: int,
)
    requires
        nodes_distinct(f),
        forall|j: int| 0 <= j < c.len() ==> #[trigger] candidate_ok(f, keep, min_age, now, c[j]),
        0 <= i < f.len(),
        !age_ok(min_age, now, f[i].node.last_used_since_epoch),
    ensures
        forall|j: int| 0 <= j < c.len() ==> (#[trigger] c[j]).id@ != f[i].id@,
{
    assert forall|j: int| 0 <= j < c.len() implies (#[trigger] c[j]).id@ != f[i].id@ by {
        if c[j].id@ == f[i].id@ {
            assert(candidate_ok(f, keep, min_age, now, c[j]));
            let ii = choose|ii: int|
                #[trigger] from_node(f, c[j], ii) && !spec_kept(keep, f[ii].node) && age_ok(
                    min_age,
                    now,
                    c[j].last_used_since_epoch,
                );
            if ii != i {
                assert(f[ii].id@ == f[i].id@);
                assert(false);
            }
        }
    }
}

/// Plan one pass's evictions: the ordered deletion-candidate list, least
/// recently used first and deeper-on-ties, holding exactly the nodes that
/// neither the keep patterns nor the minimum age protect. When `min_age`
/// reaches back past the epoch, the configuration is rejected instead.
pub fn plan_eviction(
    forest: &Vec<NodeEntry>,
    keep: Option<&RegexSet>,
    min_age: Option<u64>,
    now_since_epoch: u64,
) -> (r: Result<Vec<Candidate>, Failure>)
    ensures
        match r {
            Result::Ok(c) => {
                &&& match min_age {
                    Option::Some(m) => m <= now_since_epoch,
                    Option::None => true,
                }
                &&& eviction_sorted(c@)
                &&& c@.len() == forest@.filter(eligible(keep, min_age, now_since_epoch)).len()
                &&& forall|j: int|
                    0 <= j < c@.len() ==> #[trigger] candidate_ok(
                        forest@,
                        keep,
                        min_age,
                        now_since_epoch,
                        c@[j],
                    )
                &&& forall|i: int|
                    #![trigger forest@[i]]
                    0 <= i < forest@.len() && !spec_kept(keep, forest@[i].node) && age_ok(
                        min_age,
                        now_since_epoch,
                        forest@[i].node.last_used_since_epoch,
                    ) ==> covered(forest@, c@, i)
            },
            Result::Err(f) => {
                &&& match min_age {
                    Option::Some(m) => m > now_since_epoch,
                    Option::None => false,
                }
                &&& f is User
            },
        },
{
    if let Some(m) = min_age {
        if m > now_since_epoch {
            return Err(
                Failure::User(String::from_str("Invalid minimum age: it reaches back past the UNIX epoch."), None),
            );
        }
    }
    let collected = collect_candidates(forest, keep, min_age, now_since_epoch);
    let sorted = sort_candidates(collected);
    proof {
        assert forall|j: int| 0 <= j < sorted@.len() implies #[trigger] candidate_ok(
            forest@,
            keep,
            min_age,
            now_since_epoch,
            sorted@[j],
        ) by {
            assert(sorted@.to_multiset().count(sorted@[j]) > 0) by {
                assert(sorted@.contains(sorted@[j]));
            }
            assert(collected@.to_multiset().count(sorted@[j]) > 0);
            assert(collected@.contains(sorted@[j]));
            let jj = choose|jj: int| 0 <= jj < collected@.len() && collected@[jj] == sorted@[j];
            assert(candidate_ok(forest@, keep, min_age, now_since_epoch, collected@[jj]));
        }
        assert forall|i: int|
            #![trigger forest@[i]]
            0 <= i < forest@.len() && !spec_kept(keep, forest@[i].node) && age_ok(
                min_age,
                now_since_epoch,
                forest@[i].node.last_used_since_epoch,
            ) implies covered(forest@, sorted@, i) by {
            assert(covered(forest@, collected@, i));
            let jc = choose|jc: int|
                0 <= jc < collected@.len() && #[trigger] from_node(forest@, collected@[jc], i);
            assert(collected@.to_multiset().count(collected@[jc]) > 0) by {
                assert(collected@.contains(collected@[jc]));
            }
            assert(sorted@.to_multiset().count(collected@[jc]) > 0);
            assert(sorted@.contains(collected@[jc]));
            let j2 = choose|j2: int| 0 <= j2 < sorted@.len() && sorted@[j2] == collected@[jc];
            assert(from_node(forest@, sorted@[j2], i));
        }
    }
    Ok(sorted)
}

} // verus!
