use vstd::prelude::*;

use crate::error::Error;
use crate::facets::{
    at_indices, comes_before, offered, edge_holds, lemma_filter_all, lemma_filter_none, lemma_select_matching,
    lemma_select_members, lemma_select_same_path, matching, meets, meets_before, names, options_of,
    parameter_path, path_holds, same_edge, same_path, select,
};
use crate::node::{arena_ok, branch_key, children_ok, covered, node_ok, observed, SearchNode};
use crate::parameter::SearchParameter;
use crate::project::{eq_ignore_case, first_entry, same_ignoring_case, value_of, Project};

verus! {

/// `name` is one of `topics`.
pub open spec fn listed(topics: Seq<String>, name: Seq<char>) -> bool {
    exists|d: int| 0 <= d < topics.len() && topics[d]@ == name
}

/// `name` is the topic of some entry of some project of `projects`.
pub open spec fn used(projects: Seq<Project>, name: Seq<char>) -> bool {
    exists|i: int, k: int|
        0 <= i < projects.len() && 0 <= k < projects[i].topics@.len() && (#[trigger] projects[i].topics@[k]).0@ == name
}

/// The topic names of the entries of `projects`, project after project and
/// entry after entry.
pub open spec fn entry_names(projects: Seq<Project>) -> Seq<Seq<char>>
    decreases projects.len(),
{
    if projects.len() == 0 {
        Seq::empty()
    } else {
        entry_names(projects.drop_last()) + projects.last().topics@.map_values(|e: (String, String)| e.0@)
    }
}

/// `s` with each element kept only where it first occurs.
pub open spec fn first_occurrences(s: Seq<Seq<char>>) -> Seq<Seq<char>>
    decreases s.len(),
{
    if s.len() == 0 {
        Seq::empty()
    } else {
        let d = first_occurrences(s.drop_last());
        if d.contains(s.last()) {
            d
        } else {
            d.push(s.last())
        }
    }
}

/// The projects that `s` refers to.
pub open spec fn derefs(s: Seq<&Project>) -> Seq<Project> {
    s.map_values(|p: &Project| *p)
}

/// `p` meets every value that `parameter` sets on the first `n` topics.
pub open spec fn meets_first(p: Project, topics: Seq<Seq<char>>, parameter: SearchParameter, n: int) -> bool {
    forall|d: int| 0 <= d < n ==> #[trigger] edge_holds(p, topics[d], parameter.value(topics[d]))
}

/// The faceted trie index over a catalogue.
///
/// Its topic order lists every topic that some project names, each once, in
/// the order in which they are first met going through the projects and
/// their entries. Level `d` of the trie branches on topic `d`.
pub struct SearchTree {
    nodes: Vec<SearchNode>,
    root: usize,
    topics: Vec<String>,
    projects: Vec<Project>,
}

impl SearchTree {
    #[verifier::type_invariant]
    spec fn well_formed(self) -> bool {
        &&& self.root < self.nodes@.len()
        &&& self.nodes@[self.root as int].path@ == Seq::<Option<Seq<char>>>::empty()
        &&& arena_ok(self.nodes@, self.projects@, names(self.topics@))
        &&& self.projects@.len() <= usize::MAX
        &&& forall|a: int, b: int|
            0 <= a < self.topics@.len() && 0 <= b < self.topics@.len() && a != b ==> self.topics@[a]@
                != self.topics@[b]@
        &&& forall|name: Seq<char>| used(self.projects@, name) ==> listed(self.topics@, name)
    }

    /// The catalogue the index was built from, in its order.
    pub closed spec fn records(self) -> Seq<Project> {
        self.projects@
    }

    /// The topic order of the index.
    pub closed spec fn facets(self) -> Seq<Seq<char>> {
        names(self.topics@)
    }

    /// Builds the index over `projects`. It fails only where there are
    /// projects but none of them names a topic.
    pub fn new(projects: Vec<Project>) -> (r: Result<Self, Error>)
        ensures
            r is Err <==> (projects@.len() > 0 && forall|i: int|
                0 <= i < projects@.len() ==> (#[trigger] projects@[i]).topics@.len() == 0),
            r is Err ==> r == Err::<Self, Error>(Error::SearchNodeEmptyTopics),
            r is Ok ==> r->Ok_0.records() == projects@,
            r is Ok ==> r->Ok_0.facets() == first_occurrences(entry_names(projects@)),
            r is Ok ==> forall|name: Seq<char>| r->Ok_0.facets().contains(name) <==> used(projects@, name),
            r is Ok ==> forall|a: int, b: int|
                0 <= a < r->Ok_0.facets().len() && 0 <= b < r->Ok_0.facets().len() && a != b
                    ==> r->Ok_0.facets()[a] != r->Ok_0.facets()[b],
    {
        let mut topics: Vec<String> = Vec::new();
        let mut i: usize = 0;
        while i < projects.len()
            invariant
                i <= projects@.len(),
                forall|a: int, b: int|
                    0 <= a < topics@.len() && 0 <= b < topics@.len() && a != b ==> topics@[a]@ != topics@[b]@,
                forall|d: int| 0 <= d < topics@.len() ==> used(projects@, #[trigger] topics@[d]@),
                forall|name: Seq<char>| used(projects@.take(i as int), name) ==> listed(topics@, name),
                names(topics@) == first_occurrences(entry_names(projects@.take(i as int))),
                i == 0 ==> topics@.len() == 0,
                topics@.len() == 0 ==> forall|j: int| 0 <= j < i ==> (#[trigger] projects@[j]).topics@.len() == 0,
            decreases projects@.len() - i,
        {
            let entries = &projects[i].topics;
            let mut k: usize = 0;
            while k < entries.len()
                invariant
                    i < projects@.len(),
                    entries@ == projects@[i as int].topics@,
                    k <= entries@.len(),
                    forall|a: int, b: int|
                        0 <= a < topics@.len() && 0 <= b < topics@.len() && a != b ==> topics@[a]@ != topics@[b]@,
                    forall|d: int| 0 <= d < topics@.len() ==> used(projects@, #[trigger] topics@[d]@),
                    forall|name: Seq<char>| used(projects@.take(i as int), name) ==> listed(topics@, name),
                    forall|m: int| 0 <= m < k ==> listed(topics@, (#[trigger] entries@[m]).0@),
                    names(topics@) == first_occurrences(
                        entry_names(projects@.take(i as int)) + entries@.take(k as int).map_values(|e: (String, String)| e.0@),
                    ),
                    k > 0 ==> topics@.len() > 0,
                    topics@.len() == 0 ==> forall|j: int| 0 <= j < i ==> (#[trigger] projects@[j]).topics@.len() == 0,
                decreases entries@.len() - k,
            {
                let name = &entries[k].0;
                assert(used(projects@, name@)) by {
                    assert(projects@[i as int].topics@[k as int].0@ == name@);
                }
                let ghost before = topics@;
                let ghost seen = entry_names(projects@.take(i as int)) + entries@.take(k as int).map_values(
                    |e: (String, String)| e.0@,
                );
                proof {
                    let more = entry_names(projects@.take(i as int)) + entries@.take(k + 1).map_values(
                        |e: (String, String)| e.0@,
                    );
                    assert(more =~= seen.push(name@));
                    assert(more.drop_last() =~= seen);
                }
                let found_at = position(&topics, name);
                proof {
                    if found_at.is_some() {
                        assert(names(before)[found_at->Some_0 as int] == name@);
                    } else {
                        assert(!names(before).contains(name@));
                    }
                }
                if found_at.is_none() {
                    topics.push(name.clone());
                    assert(topics@.last()@ == name@);
                    assert forall|n2: Seq<char>| listed(before, n2) implies listed(topics@, n2) by {
                        let d = choose|d: int| 0 <= d < before.len() && before[d]@ == n2;
                        assert(topics@[d] == before[d]);
                    }
                    assert forall|n2: Seq<char>| used(projects@.take(i as int), n2) implies listed(topics@, n2) by {
                        assert(listed(before, n2));
                    }
                    assert forall|m: int| 0 <= m < k implies listed(topics@, (#[trigger] entries@[m]).0@) by {
                        assert(listed(before, entries@[m].0@));
                    }
                }
                assert(listed(topics@, name@)) by {
                    if before.len() < topics@.len() {
                        assert(topics@[before.len() as int]@ == name@);
                    }
                }
                proof {
                    assert(names(topics@) =~= first_occurrences(seen.push(name@)));
                }
                k = k + 1;
            }
            proof {
                let taken = projects@.take(i + 1);
                assert(taken.drop_last() =~= projects@.take(i as int));
                assert(entries@.take(entries@.len() as int) =~= entries@);
                assert(entry_names(taken) == entry_names(projects@.take(i as int)) + entries@.map_values(
                    |e: (String, String)| e.0@,
                ));
            }
            assert forall|name: Seq<char>| used(projects@.take(i + 1), name) implies listed(topics@, name) by {
                let (j, m) = choose|j: int, m: int|
                    0 <= j < projects@.take(i + 1).len() && 0 <= m < projects@.take(i + 1)[j].topics@.len()
                        && (#[trigger] projects@.take(i + 1)[j].topics@[m]).0@ == name;
                if j < i {
                    assert(projects@.take(i as int)[j] == projects@[j]);
                    assert(used(projects@.take(i as int), name));
                } else {
                    assert(entries@[m].0@ == name);
                }
            }
            i = i + 1;
        }
        assert(projects@.take(projects@.len() as int) =~= projects@);
        if topics.len() == 0 && projects.len() > 0 {
            return Err(Error::SearchNodeEmptyTopics);
        }
        let ghost ts = names(topics@);
        let ghost empty = Seq::<Option<Seq<char>>>::empty();
        let mut all: Vec<usize> = Vec::with_capacity(projects.len());
        let mut j: usize = 0;
        while j < projects.len()
            invariant
                j <= projects@.len(),
                all@ == select(projects@, ts, empty, j as int),
                empty == Seq::<Option<Seq<char>>>::empty(),
            decreases projects@.len() - j,
        {
            assert(path_holds(projects@[j as int], ts, empty));
            all.push(j);
            j = j + 1;
        }
        let mut nodes: Vec<SearchNode> = Vec::new();
        let root = SearchNode::new(&mut nodes, &projects, &topics, 0, None, all, Ghost(empty));
        if topics.len() > 0 {
            assert(used(projects@, topics@[0]@));
        }
        let tree = SearchTree { nodes, root, topics, projects };
        assert forall|name: Seq<char>| tree.facets().contains(name) <==> used(tree.projects@, name) by {
            if tree.facets().contains(name) {
                let d = choose|d: int| 0 <= d < tree.facets().len() && tree.facets()[d] == name;
                assert(used(tree.projects@, tree.topics@[d]@));
            }
            if used(tree.projects@, name) {
                let d = choose|d: int| 0 <= d < tree.topics@.len() && tree.topics@[d]@ == name;
                assert(tree.facets()[d] == name);
            }
        }
        Ok(tree)
    }

    /// The catalogue, in its order.
    pub fn get_projects(&self) -> (r: &[Project])
        ensures
            r@ == self.records(),
    {
        self.projects.as_slice()
    }

    /// The topic order.
    pub fn get_topics(&self) -> (r: &[String])
        ensures
            names(r@) == self.facets(),
    {
        self.topics.as_slice()
    }
}

/// On a path whose edges are alike to those that `parameter` sets on the
/// first `n` topics, passing the path is meeting `parameter` on those topics.
proof fn lemma_path_meets(
    p: Project,
    topics: Seq<Seq<char>>,
    parameter: SearchParameter,
    path: Seq<Option<Seq<char>>>,
    n: int,
)
    requires
        0 <= n <= topics.len(),
        same_path(path, parameter_path(topics, parameter, n)),
    ensures
        path_holds(p, topics, path) == meets_first(p, topics, parameter, n),
{
    let q = parameter_path(topics, parameter, n);
    assert forall|d: int| 0 <= d < n implies edge_holds(p, topics[d], path[d]) == edge_holds(
        p,
        topics[d],
        parameter.value(topics[d]),
    ) by {
        assert(same_edge(path[d], q[d]));
        assert(q[d] == parameter.value(topics[d]));
    }
    if path_holds(p, topics, path) {
        assert forall|d: int| 0 <= d < n implies #[trigger] edge_holds(p, topics[d], parameter.value(topics[d])) by {
            assert(edge_holds(p, topics[d], path[d]));
        }
    }
    if meets_first(p, topics, parameter, n) {
        assert forall|d: int| 0 <= d < path.len() implies #[trigger] edge_holds(p, topics[d], path[d]) by {
            assert(edge_holds(p, topics[d], parameter.value(topics[d])));
        }
    }
}

/// Where `t` is the first position of `target`, meeting `parameter` on the
/// topics before `target` is meeting it on the first `t` topics.
proof fn lemma_before_first(
    p: Project,
    topics: Seq<Seq<char>>,
    parameter: SearchParameter,
    target: Seq<char>,
    t: int,
)
    requires
        0 <= t < topics.len(),
        topics[t] == target,
        forall|d: int| 0 <= d < t ==> topics[d] != target,
    ensures
        meets_before(p, topics, parameter, target) == meets_first(p, topics, parameter, t),
{
    if meets_before(p, topics, parameter, target) {
        assert forall|d: int| 0 <= d < t implies #[trigger] edge_holds(p, topics[d], parameter.value(topics[d])) by {
            assert(comes_before(topics, target, d));
        }
    }
    if meets_first(p, topics, parameter, t) {
        assert forall|d: int| 0 <= d < topics.len() && comes_before(topics, target, d) implies #[trigger] edge_holds(
            p,
            topics[d],
            parameter.value(topics[d]),
        ) by {
            if d >= t {
                assert(topics[t] == target);
            }
        }
    }
}

impl SearchTree {
    /// The node one level below node `cur` along the edge that `parameter`
    /// picks on topic `depth`: the open edge where it leaves the topic open,
    /// else the edge whose value equals it ignoring ASCII case, if there is one.
    fn next_node(&self, cur: usize, depth: usize, parameter: &SearchParameter) -> (r: Option<usize>)
        requires
            cur < self.nodes@.len(),
            self.nodes@[cur as int].depth == depth < self.topics@.len(),
        ensures
            r is Some ==> {
                let c = r->Some_0 as int;
                let path = self.nodes@[c].path@;
                &&& c < self.nodes@.len()
                &&& path == self.nodes@[cur as int].path@.push(path.last())
                &&& same_edge(path.last(), parameter.value(self.topics@[depth as int]@))
            },
            r is None ==> {
                let v = parameter.value(self.topics@[depth as int]@);
                &&& v is Some
                &&& !covered(self.nodes@[cur as int].next@, v->Some_0)
            },
    {
        proof {
            use_type_invariant(self);
            assert(node_ok(self.nodes@, cur as int, self.projects@, names(self.topics@)));
        }
        let node = &self.nodes[cur];
        match parameter.get(&self.topics[depth]) {
            None => {
                let c = node.next[0].1;
                assert(self.nodes@[c as int].path@.last() == None::<Seq<char>>);
                Some(c)
            },
            Some(v) => {
                let mut k: usize = 1;
                while k < node.next.len()
                    invariant
                        1 <= k <= node.next@.len(),
                        *node == self.nodes@[cur as int],
                        depth < self.topics@.len(),
                        parameter.value(self.topics@[depth as int]@) == Some(v@),
                        cur < self.nodes@.len(),
                        node_ok(self.nodes@, cur as int, self.projects@, names(self.topics@)),
                        forall|m: int| 1 <= m < node.next@.len() ==> (#[trigger] node.next@[m]).0.is_some(),
                        forall|m: int| 1 <= m < k ==> !same_ignoring_case(#[trigger] branch_key(node.next@, m), v@),
                    decreases node.next@.len() - k,
                {
                    match &node.next[k].0 {
                        Some(key) => {
                            if eq_ignore_case(key, v) {
                                let ghost c = node.next@[k as int].1 as int;
                                assert(children_ok(self.nodes@, cur as int, node.path@, node.next@));
                                assert(self.nodes@[c].path@ == node.path@.push(Some(key@)));
                                assert(self.nodes@[c].path@.last() == Some(key@));
                                assert(parameter.value(self.topics@[depth as int]@) == Some(v@));
                                return Some(node.next[k].1);
                            }
                        },
                        None => {},
                    }
                    k = k + 1;
                }
                None
            },
        }
    }

    /// The node reached from the root along the edges that `parameter` picks
    /// on the first `depth` topics, or `None` where on the way a value that
    /// `parameter` sets has no edge: then no project meets `parameter` on
    /// those topics.
    fn walk(&self, parameter: &SearchParameter, depth: usize) -> (r: Option<usize>)
        requires
            depth <= self.topics@.len(),
        ensures
            r is Some ==> {
                let c = r->Some_0 as int;
                &&& c < self.nodes@.len()
                &&& self.nodes@[c].depth == depth
                &&& same_path(self.nodes@[c].path@, parameter_path(names(self.topics@), *parameter, depth as int))
            },
            r is None ==> forall|i: int|
                0 <= i < self.projects@.len() ==> !meets_first(
                    #[trigger] self.projects@[i],
                    names(self.topics@),
                    *parameter,
                    depth as int,
                ),
    {
        proof {
            use_type_invariant(self);
        }
        let ghost recs = self.projects@;
        let ghost ts = names(self.topics@);
        let mut cur = self.root;
        let mut d: usize = 0;
        proof {
            assert(node_ok(self.nodes@, cur as int, recs, ts));
            assert(same_path(self.nodes@[cur as int].path@, parameter_path(ts, *parameter, 0)));
        }
        while d < depth
            invariant
                d <= depth <= self.topics@.len(),
                recs == self.projects@,
                ts == names(self.topics@),
                cur < self.nodes@.len(),
                arena_ok(self.nodes@, recs, ts),
                recs.len() <= usize::MAX,
                self.nodes@[cur as int].depth == d,
                same_path(self.nodes@[cur as int].path@, parameter_path(ts, *parameter, d as int)),
            decreases depth - d,
        {
            proof {
                assert(node_ok(self.nodes@, cur as int, recs, ts));
            }
            match self.next_node(cur, d, parameter) {
                Some(c) => {
                    proof {
                        assert(node_ok(self.nodes@, c as int, recs, ts));
                        let p1 = self.nodes@[c as int].path@;
                        let q1 = parameter_path(ts, *parameter, d + 1);
                        assert forall|e: int| 0 <= e < p1.len() implies #[trigger] same_edge(p1[e], q1[e]) by {
                            if e < d {
                                assert(same_edge(
                                    self.nodes@[cur as int].path@[e],
                                    parameter_path(ts, *parameter, d as int)[e],
                                ));
                            }
                        }
                    }
                    cur = c;
                },
                None => {
                    proof {
                        let node = self.nodes@[cur as int];
                        let path = node.path@;
                        let v = parameter.value(ts[d as int])->Some_0;
                        lemma_select_members(recs, ts, path, recs.len() as int);
                        assert forall|i: int| 0 <= i < recs.len() implies !meets_first(
                            #[trigger] recs[i],
                            ts,
                            *parameter,
                            depth as int,
                        ) by {
                            if meets_first(recs[i], ts, *parameter, depth as int) {
                                assert(meets_first(recs[i], ts, *parameter, d as int));
                                lemma_path_meets(recs[i], ts, *parameter, path, d as int);
                                assert(node.found@.contains(i as usize));
                                let ki = choose|ki: int| 0 <= ki < node.found@.len() && node.found@[ki] == i as usize;
                                assert(edge_holds(recs[i], ts[d as int], parameter.value(ts[d as int])));
                                let w = value_of(recs[i], ts[d as int])->Some_0;
                                assert(value_of(recs[node.found@[ki] as int], ts[d as int]).is_some());
                                assert(covered(node.next@, w));
                                let k = choose|k: int| 1 <= k < node.next@.len() && same_ignoring_case(branch_key(node.next@, k), w);
                                assert(same_ignoring_case(branch_key(node.next@, k), v));
                            }
                        }
                    }
                    return None;
                },
            }
            d = d + 1;
        }
        Some(cur)
    }

    /// The projects that meet `parameter`, in catalogue order: those whose
    /// value for each topic that `parameter` sets equals it, ignoring ASCII
    /// case. A project without a value for such a topic is left out; a value
    /// that no project has gives no projects. Topics outside the topic order
    /// are not looked at.
    pub fn search(&self, parameter: &SearchParameter) -> (r: Vec<&Project>)
        ensures
            derefs(r@) == matching(self.records(), self.facets(), *parameter),
    {
        proof {
            use_type_invariant(self);
        }
        let ghost recs = self.projects@;
        let ghost ts = names(self.topics@);
        let ghost pred = |p: Project| meets(p, ts, *parameter);
        let mut r: Vec<&Project> = Vec::new();
        if parameter.is_empty() {
            let mut i: usize = 0;
            while i < self.projects.len()
                invariant
                    i <= recs.len(),
                    recs == self.projects@,
                    derefs(r@) == recs.take(i as int),
                decreases recs.len() - i,
            {
                let ghost before = r@;
                r.push(&self.projects[i]);
                proof {
                    assert(derefs(r@) =~= derefs(before).push(recs[i as int]));
                    assert(recs.take(i + 1) =~= recs.take(i as int).push(recs[i as int]));
                }
                i = i + 1;
            }
            proof {
                assert(recs.take(recs.len() as int) =~= recs);
                assert forall|i: int| 0 <= i < recs.len() implies pred(#[trigger] recs[i]) by {
                    assert forall|d: int| 0 <= d < ts.len() implies #[trigger] edge_holds(
                        recs[i],
                        ts[d],
                        parameter.value(ts[d]),
                    ) by {
                        assert(parameter.value(ts[d]).is_none());
                    }
                }
                lemma_filter_all(recs, pred);
            }
            return r;
        }
        match self.walk(parameter, self.topics.len()) {
            None => {
                proof {
                    assert forall|i: int| 0 <= i < recs.len() implies !pred(#[trigger] recs[i]) by {
                        assert(!meets_first(recs[i], ts, *parameter, ts.len() as int));
                    }
                    lemma_filter_none(recs, pred);
                }
                r
            },
            Some(c) => {
                let found = &self.nodes[c].found;
                proof {
                    let n = recs.len() as int;
                    let path = self.nodes@[c as int].path@;
                    assert(node_ok(self.nodes@, c as int, recs, ts));
                    lemma_select_same_path(recs, ts, path, parameter_path(ts, *parameter, ts.len() as int), n);
                    lemma_select_matching(recs, ts, *parameter, n);
                    assert(recs.take(n) =~= recs);
                    lemma_select_members(recs, ts, path, n);
                }
                let mut k: usize = 0;
                while k < found.len()
                    invariant
                        k <= found@.len(),
                        recs == self.projects@,
                        forall|m: int| 0 <= m < found@.len() ==> found@[m] < recs.len(),
                        derefs(r@) == at_indices(recs, found@.take(k as int)),
                    decreases found@.len() - k,
                {
                    let ghost before = r@;
                    r.push(&self.projects[found[k]]);
                    proof {
                        assert(derefs(r@) =~= derefs(before).push(recs[found@[k as int] as int]));
                        assert(found@.take(k + 1) =~= found@.take(k as int).push(found@[k as int]));
                        assert(at_indices(recs, found@.take(k + 1)) =~= at_indices(recs, found@.take(k as int)).push(recs[found@[k as int] as int]));
                    }
                    k = k + 1;
                }
                assert(found@.take(found@.len() as int) =~= found@);
                r
            },
        }
    }

    /// The values that `expected_topic` can take next under `parameter`:
    /// those that the projects meeting `parameter` on the topics before
    /// `expected_topic` in the topic order have, one spelling per value
    /// (ignoring ASCII case), spelled as a project has it. What `parameter`
    /// sets on `expected_topic` itself or on later topics is not looked at.
    pub fn retrieve_topic_options(&self, expected_topic: &String, parameter: &SearchParameter) -> (r: Vec<String>)
        ensures
            options_of(self.records(), self.facets(), *parameter, expected_topic@, names(r@)),
    {
        proof {
            use_type_invariant(self);
        }
        let ghost recs = self.projects@;
        let ghost ts = names(self.topics@);
        let ghost target = expected_topic@;
        let mut r: Vec<String> = Vec::new();
        match position(&self.topics, expected_topic) {
            None => {
                proof {
                    assert forall|i: int| 0 <= i < recs.len() implies !(#[trigger] value_of(recs[i], target)).is_some() by {
                        if value_of(recs[i], target).is_some() {
                            let k = choose|k: int| first_entry(recs[i].topics@, target, k);
                            assert(used(recs, recs[i].topics@[k].0@));
                            assert(listed(self.topics@, target));
                        }
                    }
                    assert(names(r@) =~= Seq::<Seq<char>>::empty());
                }
                r
            },
            Some(t) => {
                proof {
                    assert forall|i: int| 0 <= i < recs.len() implies meets_before(#[trigger] recs[i], ts, *parameter, target)
                        == meets_first(recs[i], ts, *parameter, t as int) by {
                        lemma_before_first(recs[i], ts, *parameter, target, t as int);
                    }
                }
                match self.walk(parameter, t) {
                    None => {
                        proof {
                            assert(names(r@) =~= Seq::<Seq<char>>::empty());
                        }
                        r
                    },
                    Some(c) => {
                        let next = &self.nodes[c].next;
                        let ghost node = self.nodes@[c as int];
                        let ghost path = node.path@;
                        proof {
                            assert(node_ok(self.nodes@, c as int, recs, ts));
                            lemma_select_members(recs, ts, path, recs.len() as int);
                            assert forall|i: int| 0 <= i < recs.len() implies path_holds(#[trigger] recs[i], ts, path)
                                == meets_first(recs[i], ts, *parameter, t as int) by {
                                lemma_path_meets(recs[i], ts, *parameter, path, t as int);
                            }
                        }
                        let mut k: usize = 1;
                        while k < next.len()
                            invariant
                                1 <= k <= next@.len(),
                                next@ == node.next@,
                                forall|m: int| 1 <= m < next@.len() ==> (#[trigger] next@[m]).0.is_some(),
                                r@.len() == k - 1,
                                forall|m: int| 0 <= m < r@.len() ==> (#[trigger] r@[m])@ == branch_key(next@, m + 1),
                            decreases next@.len() - k,
                        {
                            match &next[k].0 {
                                Some(key) => {
                                    r.push(key.clone());
                                },
                                None => {},
                            }
                            k = k + 1;
                        }
                        proof {
                            let names_r = names(r@);
                            let topic = ts[t as int];
                            assert(topic == target);
                            assert forall|m: int| 0 <= m < names_r.len() implies offered(recs, ts, *parameter, target, #[trigger] names_r[m]) by {
                                assert(names_r[m] == branch_key(next@, m + 1));
                                assert(observed(recs, topic, node.found@, branch_key(next@, m + 1)));
                                let ki = choose|ki: int| 0 <= ki < node.found@.len()
                                    && value_of(recs[node.found@[ki] as int], topic) == Some(branch_key(next@, m + 1));
                                let i = node.found@[ki] as int;
                                assert(path_holds(recs[i], ts, path));
                                assert(meets_before(recs[i], ts, *parameter, target));
                            }
                            assert forall|i: int|
                                0 <= i < recs.len() && meets_before(recs[i], ts, *parameter, target)
                                    && #[trigger] value_of(recs[i], target).is_some() implies exists|m: int|
                                0 <= m < names_r.len() && same_ignoring_case(names_r[m], value_of(recs[i], target).unwrap()) by {
                                assert(path_holds(recs[i], ts, path));
                                assert(node.found@.contains(i as usize));
                                let ki = choose|ki: int| 0 <= ki < node.found@.len() && node.found@[ki] == i as usize;
                                assert(value_of(recs[node.found@[ki] as int], topic).is_some());
                                let w = value_of(recs[i], target).unwrap();
                                assert(covered(next@, w));
                                let q = choose|q: int| 1 <= q < next@.len() && same_ignoring_case(branch_key(next@, q), w);
                                assert(names_r[q - 1] == branch_key(next@, q));
                            }
                            assert forall|a: int, b: int|
                                0 <= a < names_r.len() && 0 <= b < names_r.len() && a != b implies !same_ignoring_case(
                                    names_r[a],
                                    names_r[b],
                                ) by {
                                assert(names_r[a] == branch_key(next@, a + 1));
                                assert(names_r[b] == branch_key(next@, b + 1));
                            }
                        }
                        r
                    },
                }
            },
        }
    }
}

/// The index of the first of `topics` that equals `name`.
fn position(topics: &Vec<String>, name: &String) -> (r: Option<usize>)
    ensures
        r is None ==> forall|d: int| 0 <= d < topics@.len() ==> topics@[d]@ != name@,
        r is Some ==> r->Some_0 < topics@.len() && topics@[r->Some_0 as int]@ == name@
            && forall|d: int| 0 <= d < r->Some_0 ==> topics@[d]@ != name@,
{
    let mut d: usize = 0;
    while d < topics.len()
        invariant
            d <= topics@.len(),
            forall|e: int| 0 <= e < d ==> topics@[e]@ != name@,
        decreases topics@.len() - d,
    {
        if topics[d] == *name {
            return Some(d);
        }
        d = d + 1;
    }
    None
}

} // verus!
