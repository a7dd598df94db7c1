use vstd::prelude::*;

use crate::facets::{edge_holds, edge_pred, lemma_select_extend, lemma_select_members, names, select};
use crate::parameter::opt_view;
use crate::project::{eq_ignore_case, same_ignoring_case, value_of, Project};

verus! {

/// One node of the trie, kept in an arena of nodes and addressed by its index.
///
/// A node stands for the assignment made by the edges from the root down to
/// it: edge `d` is on topic `d` of the index's topic order, and is either open
/// (`None`) or a value.
pub struct SearchNode {
    /// How many edges lead from the root to this node.
    pub depth: usize,
    /// The value of the edge into this node (`None`: the open edge, and the root).
    pub expected: Option<String>,
    /// The indices of the projects that pass every edge on the way here, in increasing order.
    pub found: Vec<usize>,
    /// The edges on the next topic, with the index of the node each leads to:
    /// first the open edge, then one per value that a project of `found`
    /// has for that topic (values equal but for ASCII case share one edge).
    pub next: Vec<(Option<String>, usize)>,
    /// The edges from the root to this node.
    pub path: Ghost<Seq<Option<Seq<char>>>>,
}

/// The value of the edge `next[k]`, taken as the `Some` it is.
pub open spec fn branch_key(next: Seq<(Option<String>, usize)>, k: int) -> Seq<char> {
    next[k].0.unwrap()@
}

/// Some project of `found` has the value `v` for `topic`, spelled exactly so.
pub open spec fn observed(recs: Seq<Project>, topic: Seq<char>, found: Seq<usize>, v: Seq<char>) -> bool {
    exists|i: int| 0 <= i < found.len() && value_of(recs[found[i] as int], topic) == Some(v)
}

/// Some value edge of `next` equals `w`, ignoring ASCII case.
pub open spec fn covered(next: Seq<(Option<String>, usize)>, w: Seq<char>) -> bool {
    exists|k: int| 1 <= k < next.len() && same_ignoring_case(branch_key(next, k), w)
}

/// The edges `next` of a node whose projects are `found` branch correctly on `topic`.
pub open spec fn branches_ok(
    recs: Seq<Project>,
    topic: Seq<char>,
    found: Seq<usize>,
    next: Seq<(Option<String>, usize)>,
) -> bool {
    &&& next.len() > 0
    &&& next[0].0.is_none()
    &&& forall|k: int| 1 <= k < next.len() ==> (#[trigger] next[k]).0.is_some()
    &&& forall|a: int, b: int|
        1 <= a < next.len() && 1 <= b < next.len() && a != b ==> !same_ignoring_case(
            #[trigger] branch_key(next, a),
            #[trigger] branch_key(next, b),
        )
    &&& forall|k: int| 1 <= k < next.len() ==> observed(recs, topic, found, #[trigger] branch_key(next, k))
    &&& forall|i: int|
        0 <= i < found.len() && (#[trigger] value_of(recs[found[i] as int], topic)).is_some()
            ==> covered(next, value_of(recs[found[i] as int], topic).unwrap())
}

/// Each edge of `next` leads to a node made earlier than node `j`, whose path
/// is `path` and that edge.
pub open spec fn children_ok(
    nodes: Seq<SearchNode>,
    j: int,
    path: Seq<Option<Seq<char>>>,
    next: Seq<(Option<String>, usize)>,
) -> bool {
    forall|k: int|
        0 <= k < next.len() ==> {
            let c = (#[trigger] next[k]).1 as int;
            &&& c < j
            &&& nodes[c].path@ == path.push(opt_view(next[k].0))
        }
}

/// Node `j` of the arena `nodes` is well formed.
pub open spec fn node_ok(nodes: Seq<SearchNode>, j: int, recs: Seq<Project>, topics: Seq<Seq<char>>) -> bool {
    let n = nodes[j];
    &&& n.path@.len() == n.depth <= topics.len()
    &&& opt_view(n.expected) == (if n.depth == 0 { None } else { n.path@.last() })
    &&& n.found@ == select(recs, topics, n.path@, recs.len() as int)
    &&& children_ok(nodes, j, n.path@, n.next@)
    &&& n.depth < topics.len() ==> branches_ok(recs, topics[n.depth as int], n.found@, n.next@)
    &&& n.depth == topics.len() ==> n.next@.len() == 0
}

/// Every node of the arena `nodes` is well formed.
pub open spec fn arena_ok(nodes: Seq<SearchNode>, recs: Seq<Project>, topics: Seq<Seq<char>>) -> bool {
    forall|j: int| 0 <= j < nodes.len() ==> #[trigger] node_ok(nodes, j, recs, topics)
}

/// An arena that keeps the nodes of a well-formed arena and adds well-formed ones is well formed.
proof fn lemma_arena_grow(
    before: Seq<SearchNode>,
    after: Seq<SearchNode>,
    recs: Seq<Project>,
    topics: Seq<Seq<char>>,
)
    requires
        arena_ok(before, recs, topics),
        before.len() <= after.len(),
        forall|j: int| 0 <= j < before.len() ==> after[j] == before[j],
        forall|j: int| before.len() <= j < after.len() ==> node_ok(after, j, recs, topics),
    ensures
        arena_ok(after, recs, topics),
{
    assert forall|j: int| 0 <= j < after.len() implies #[trigger] node_ok(after, j, recs, topics) by {
        if j < before.len() {
            assert(node_ok(before, j, recs, topics));
            let n = before[j];
            assert forall|k: int| 0 <= k < n.next@.len() implies {
                let c = (#[trigger] n.next@[k]).1 as int;
                &&& c < j
                &&& after[c].path@ == n.path@.push(opt_view(n.next@[k].0))
            } by {
                let c = n.next@[k].1 as int;
                assert(after[c] == before[c]);
            }
        }
    }
}

/// Whether some value edge of `next` (past the open edge) equals `w`, ignoring ASCII case.
fn has_branch(next: &Vec<(Option<String>, usize)>, w: &String) -> (r: bool)
    requires
        next@.len() > 0,
        forall|k: int| 1 <= k < next@.len() ==> (#[trigger] next@[k]).0.is_some(),
    ensures
        r == covered(next@, w@),
{
    let mut k: usize = 1;
    while k < next.len()
        invariant
            1 <= k <= next@.len(),
            forall|m: int| 1 <= m < next@.len() ==> (#[trigger] next@[m]).0.is_some(),
            forall|m: int| 1 <= m < k ==> !same_ignoring_case(#[trigger] branch_key(next@, m), w@),
        decreases next@.len() - k,
    {
        match &next[k].0 {
            Some(key) => {
                if eq_ignore_case(key, w) {
                    assert(same_ignoring_case(branch_key(next@, k as int), w@));
                    return true;
                }
            },
            None => {},
        }
        k = k + 1;
    }
    false
}

impl SearchNode {
    /// The indices of `found`, in order, whose projects pass the edge `expected` on `topic`:
    /// all of them for the open edge, else those whose value for `topic`
    /// equals `expected` ignoring ASCII case.
    pub fn filter(
        projects: &Vec<Project>,
        found: &Vec<usize>,
        expected: &Option<String>,
        topic: &String,
    ) -> (r: Vec<usize>)
        requires
            forall|k: int| 0 <= k < found@.len() ==> found@[k] < projects@.len(),
        ensures
            r@ == found@.filter(edge_pred(projects@, topic@, opt_view(*expected))),
    {
        let ghost pred = edge_pred(projects@, topic@, opt_view(*expected));
        let mut r: Vec<usize> = Vec::with_capacity(found.len());
        let mut k: usize = 0;
        while k < found.len()
            invariant
                k <= found@.len(),
                forall|m: int| 0 <= m < found@.len() ==> found@[m] < projects@.len(),
                pred == edge_pred(projects@, topic@, opt_view(*expected)),
                r@ == found@.take(k as int).filter(pred),
            decreases found@.len() - k,
        {
            proof {
                reveal(Seq::filter);
                assert(found@.take(k + 1).drop_last() =~= found@.take(k as int));
            }
            let i = found[k];
            let keep = match expected {
                None => true,
                Some(v) => match projects[i].get(topic) {
                    Some(w) => eq_ignore_case(w, v),
                    None => false,
                },
            };
            assert(keep == edge_holds(projects@[i as int], topic@, opt_view(*expected)));
            assert(found@.take(k + 1).last() == i);
            if keep {
                r.push(i);
            }
            k = k + 1;
        }
        assert(found@.take(found@.len() as int) =~= found@);
        r
    }
}

impl SearchNode {
    /// Builds the node reached by `path` (with `expected` its last edge and
    /// `found` the projects that pass it) and the whole trie below it, adds
    /// them to `nodes`, children before parents, and returns the node's index.
    pub fn new(
        nodes: &mut Vec<SearchNode>,
        projects: &Vec<Project>,
        topics: &Vec<String>,
        depth: usize,
        expected: Option<String>,
        found: Vec<usize>,
        path: Ghost<Seq<Option<Seq<char>>>>,
    ) -> (r: usize)
        requires
            depth == path@.len() <= topics@.len(),
            opt_view(expected) == (if depth == 0 { None } else { path@.last() }),
            found@ == select(projects@, names(topics@), path@, projects@.len() as int),
            arena_ok(old(nodes)@, projects@, names(topics@)),
        ensures
            arena_ok(final(nodes)@, projects@, names(topics@)),
            old(nodes)@.len() <= r < final(nodes)@.len(),
            forall|j: int| 0 <= j < old(nodes)@.len() ==> final(nodes)@[j] == old(nodes)@[j],
            final(nodes)@[r as int].path@ == path@,
        decreases topics@.len() - depth, 1nat,
    {
        let ghost before = nodes@;
        let next = if depth < topics.len() {
            Self::create_children(nodes, projects, topics, depth, &found, path)
        } else {
            Vec::new()
        };
        let ghost middle = nodes@;
        let node = SearchNode { depth, expected, found, next, path };
        nodes.push(node);
        proof {
            let after = nodes@;
            assert(forall|j: int| 0 <= j < middle.len() ==> after[j] == middle[j]);
            assert(children_ok(after, middle.len() as int, path@, next@)) by {
                assert forall|k: int| 0 <= k < next@.len() implies {
                    let c = (#[trigger] next@[k]).1 as int;
                    &&& c < middle.len()
                    &&& after[c].path@ == path@.push(opt_view(next@[k].0))
                } by {
                    let c = next@[k].1 as int;
                    assert(after[c] == middle[c]);
                }
            }
            assert(node_ok(after, middle.len() as int, projects@, names(topics@)));
            lemma_arena_grow(middle, after, projects@, names(topics@));
        }
        nodes.len() - 1
    }

    /// Builds the edges out of the node reached by `path`, whose projects are
    /// `found`: the open edge, then one edge per value (ignoring ASCII case)
    /// that a project of `found` has for the next topic, in the order the
    /// values are first met. The nodes they lead to are added to `nodes`.
    pub fn create_children(
        nodes: &mut Vec<SearchNode>,
        projects: &Vec<Project>,
        topics: &Vec<String>,
        depth: usize,
        found: &Vec<usize>,
        path: Ghost<Seq<Option<Seq<char>>>>,
    ) -> (next: Vec<(Option<String>, usize)>)
        requires
            depth == path@.len() < topics@.len(),
            found@ == select(projects@, names(topics@), path@, projects@.len() as int),
            arena_ok(old(nodes)@, projects@, names(topics@)),
        ensures
            arena_ok(final(nodes)@, projects@, names(topics@)),
            old(nodes)@.len() <= final(nodes)@.len(),
            forall|j: int| 0 <= j < old(nodes)@.len() ==> final(nodes)@[j] == old(nodes)@[j],
            children_ok(final(nodes)@, final(nodes)@.len() as int, path@, next@),
            branches_ok(projects@, names(topics@)[depth as int], found@, next@),
        decreases topics@.len() - depth, 0nat,
    {
        let ghost ts = names(topics@);
        let ghost recs = projects@;
        let count = projects.len();
        let levels = topics.len();
        let ghost n = count as int;
        let topic = &topics[depth];
        proof {
            lemma_select_members(recs, ts, path@, n);
            lemma_select_extend(recs, ts, path@, None, n);
        }
        let open_found = Self::filter(projects, found, &None, topic);
        let c = Self::new(nodes, projects, topics, depth + 1, None, open_found, Ghost(path@.push(None)));
        let mut next: Vec<(Option<String>, usize)> = Vec::new();
        next.push((None, c));
        let mut k: usize = 0;
        while k < found.len()
            invariant
                k <= found@.len(),
                depth == path@.len() < topics@.len(),
                ts == names(topics@),
                recs == projects@,
                n == recs.len(),
                n == count,
                levels == topics@.len(),
                topic@ == ts[depth as int],
                found@ == select(recs, ts, path@, n),
                forall|m: int| 0 <= m < found@.len() ==> found@[m] < n,
                arena_ok(nodes@, recs, ts),
                old(nodes)@.len() <= nodes@.len(),
                forall|j: int| 0 <= j < old(nodes)@.len() ==> nodes@[j] == old(nodes)@[j],
                next@.len() > 0,
                next@[0].0.is_none(),
                forall|m: int| 1 <= m < next@.len() ==> (#[trigger] next@[m]).0.is_some(),
                children_ok(nodes@, nodes@.len() as int, path@, next@),
                forall|a: int, b: int|
                    1 <= a < next@.len() && 1 <= b < next@.len() && a != b ==> !same_ignoring_case(
                        #[trigger] branch_key(next@, a),
                        #[trigger] branch_key(next@, b),
                    ),
                forall|m: int|
                    1 <= m < next@.len() ==> observed(recs, ts[depth as int], found@, #[trigger] branch_key(next@, m)),
                forall|i: int|
                    0 <= i < k && (#[trigger] value_of(recs[found@[i] as int], ts[depth as int])).is_some()
                        ==> covered(next@, value_of(recs[found@[i] as int], ts[depth as int]).unwrap()),
            decreases found@.len() - k,
        {
            let i = found[k];
            match projects[i].get(topic) {
                Some(w) => {
                    if !has_branch(&next, w) {
                        proof {
                            lemma_select_extend(recs, ts, path@, Some(w@), n);
                        }
                        let sub = Self::filter(projects, found, &Some(w.clone()), topic);
                        let ghost before = nodes@;
                        let ghost old_next = next@;
                        let c = Self::new(
                            nodes,
                            projects,
                            topics,
                            depth + 1,
                            Some(w.clone()),
                            sub,
                            Ghost(path@.push(Some(w@))),
                        );
                        next.push((Some(w.clone()), c));
                        proof {
                            let m = next@.len() - 1;
                            assert(branch_key(next@, m) == w@);
                            assert forall|q: int| 0 <= q < old_next.len() implies #[trigger] next@[q] == old_next[q] by {}
                            assert forall|q: int| 1 <= q < old_next.len() implies branch_key(next@, q) == branch_key(old_next, q) by {}
                            assert(children_ok(nodes@, nodes@.len() as int, path@, next@)) by {
                                assert forall|q: int| 0 <= q < next@.len() implies {
                                    let c = (#[trigger] next@[q]).1 as int;
                                    &&& c < nodes@.len()
                                    &&& nodes@[c].path@ == path@.push(opt_view(next@[q].0))
                                } by {
                                    if q < old_next.len() {
                                        let c = old_next[q].1 as int;
                                        assert(nodes@[c] == before[c]);
                                    }
                                }
                            }
                            assert(value_of(recs[found@[k as int] as int], ts[depth as int]) == Some(branch_key(next@, m)));
                            assert forall|a: int, b: int|
                                1 <= a < next@.len() && 1 <= b < next@.len() && a != b implies !same_ignoring_case(
                                    #[trigger] branch_key(next@, a),
                                    #[trigger] branch_key(next@, b),
                                ) by {
                                if a == m {
                                    assert(!same_ignoring_case(branch_key(old_next, b), w@));
                                } else if b == m {
                                    assert(!same_ignoring_case(branch_key(old_next, a), w@));
                                } else {
                                    assert(!same_ignoring_case(branch_key(old_next, a), branch_key(old_next, b)));
                                }
                            }
                            assert forall|q: int| 1 <= q < next@.len() implies observed(recs, ts[depth as int], found@, #[trigger] branch_key(next@, q)) by {
                                if q == m {
                                    assert(value_of(recs[found@[k as int] as int], ts[depth as int]) == Some(branch_key(next@, q)));
                                } else {
                                    assert(branch_key(next@, q) == branch_key(old_next, q));
                                }
                            }
                            assert forall|i: int|
                                0 <= i <= k && (#[trigger] value_of(recs[found@[i] as int], ts[depth as int])).is_some()
                                    implies covered(next@, value_of(recs[found@[i] as int], ts[depth as int]).unwrap()) by {
                                if i == k {
                                    assert(same_ignoring_case(branch_key(next@, m), w@));
                                } else {
                                    let v = value_of(recs[found@[i] as int], ts[depth as int]).unwrap();
                                    let q = choose|q: int| 1 <= q < old_next.len() && same_ignoring_case(branch_key(old_next, q), v);
                                    assert(same_ignoring_case(branch_key(next@, q), v));
                                }
                            }
                        }
                    }
                },
                None => {},
            }
            k = k + 1;
        }
        next
    }
}

} // verus!
