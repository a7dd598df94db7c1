use vstd::prelude::*;

use crate::parameter::SearchParameter;
use crate::project::{same_ignoring_case, value_of, Project};

verus! {

/// The names of `v`, as character sequences.
pub open spec fn names(v: Seq<String>) -> Seq<Seq<char>> {
    v.map_values(|s: String| s@)
}

/// `p` passes an edge on `topic`: any project passes the open edge (`None`);
/// an edge with a value needs the project's own value for `topic` to equal it,
/// ignoring ASCII case. A project without a value for `topic` fails such an edge.
pub open spec fn edge_holds(p: Project, topic: Seq<char>, e: Option<Seq<char>>) -> bool {
    match e {
        None => true,
        Some(v) => match value_of(p, topic) {
            Some(w) => same_ignoring_case(w, v),
            None => false,
        },
    }
}

/// `p` passes every edge of `path`, edge `d` being on topic `topics[d]`.
pub open spec fn path_holds(p: Project, topics: Seq<Seq<char>>, path: Seq<Option<Seq<char>>>) -> bool {
    forall|d: int| 0 <= d < path.len() ==> #[trigger] edge_holds(p, topics[d], path[d])
}

/// `p` meets every value that `parameter` sets on the topics of `topics`.
pub open spec fn meets(p: Project, topics: Seq<Seq<char>>, parameter: SearchParameter) -> bool {
    forall|d: int| 0 <= d < topics.len() ==> #[trigger] edge_holds(p, topics[d], parameter.value(topics[d]))
}

/// Topic `d` of `topics` comes before the first occurrence of `target`.
pub open spec fn comes_before(topics: Seq<Seq<char>>, target: Seq<char>, d: int) -> bool {
    forall|e: int| 0 <= e <= d ==> topics[e] != target
}

/// `p` meets every value that `parameter` sets on the topics that come before `target`.
pub open spec fn meets_before(
    p: Project,
    topics: Seq<Seq<char>>,
    parameter: SearchParameter,
    target: Seq<char>,
) -> bool {
    forall|d: int|
        0 <= d < topics.len() && comes_before(topics, target, d) ==> #[trigger] edge_holds(
            p,
            topics[d],
            parameter.value(topics[d]),
        )
}

/// The projects of `projects` that meet `parameter`, in catalogue order.
pub open spec fn matching(
    projects: Seq<Project>,
    topics: Seq<Seq<char>>,
    parameter: SearchParameter,
) -> Seq<Project> {
    projects.filter(|p: Project| meets(p, topics, parameter))
}

/// Some project that meets `parameter` on the topics before `target` has
/// the value `v` for `target`, spelled exactly so.
pub open spec fn offered(
    projects: Seq<Project>,
    topics: Seq<Seq<char>>,
    parameter: SearchParameter,
    target: Seq<char>,
    v: Seq<char>,
) -> bool {
    exists|i: int|
        0 <= i < projects.len() && meets_before(projects[i], topics, parameter, target)
            && value_of(projects[i], target) == Some(v)
}

/// `r` lists the values that `target` can take next: one spelling per value
/// (values equal but for ASCII case count once), each spelled as some project
/// has it, taken over the projects that meet `parameter` on the topics before
/// `target`.
pub open spec fn options_of(
    projects: Seq<Project>,
    topics: Seq<Seq<char>>,
    parameter: SearchParameter,
    target: Seq<char>,
    r: Seq<Seq<char>>,
) -> bool {
    &&& forall|k: int| 0 <= k < r.len() ==> offered(projects, topics, parameter, target, #[trigger] r[k])
    &&& forall|i: int|
        0 <= i < projects.len() && meets_before(projects[i], topics, parameter, target)
            && #[trigger] value_of(projects[i], target).is_some() ==> exists|k: int|
            0 <= k < r.len() && same_ignoring_case(r[k], value_of(projects[i], target).unwrap())
    &&& forall|a: int, b: int|
        0 <= a < r.len() && 0 <= b < r.len() && a != b ==> !same_ignoring_case(r[a], r[b])
}

/// The indices below `n` of the projects that pass `path`, in increasing order.
pub open spec fn select(
    recs: Seq<Project>,
    topics: Seq<Seq<char>>,
    path: Seq<Option<Seq<char>>>,
    n: int,
) -> Seq<usize>
    decreases n,
{
    if n <= 0 {
        Seq::empty()
    } else {
        let s = select(recs, topics, path, n - 1);
        if path_holds(recs[n - 1], topics, path) {
            s.push((n - 1) as usize)
        } else {
            s
        }
    }
}

/// The test of one edge, on an index into `recs`.
pub open spec fn edge_pred(recs: Seq<Project>, topic: Seq<char>, e: Option<Seq<char>>) -> spec_fn(usize) -> bool {
    |i: usize| edge_holds(recs[i as int], topic, e)
}

/// Two edges that every project passes alike.
pub open spec fn same_edge(a: Option<Seq<char>>, b: Option<Seq<char>>) -> bool {
    match (a, b) {
        (None, None) => true,
        (Some(x), Some(y)) => same_ignoring_case(x, y),
        _ => false,
    }
}

/// Two paths whose edges are pairwise alike.
pub open spec fn same_path(p: Seq<Option<Seq<char>>>, q: Seq<Option<Seq<char>>>) -> bool {
    &&& p.len() == q.len()
    &&& forall|d: int| 0 <= d < p.len() ==> #[trigger] same_edge(p[d], q[d])
}

/// The edges that `parameter` sets on the first `n` topics.
pub open spec fn parameter_path(topics: Seq<Seq<char>>, parameter: SearchParameter, n: int) -> Seq<Option<Seq<char>>> {
    Seq::new(n as nat, |d: int| parameter.value(topics[d]))
}

/// The projects at the indices of `ids`.
pub open spec fn at_indices(recs: Seq<Project>, ids: Seq<usize>) -> Seq<Project> {
    ids.map_values(|i: usize| recs[i as int])
}

/// `select` holds exactly the indices below `n` of the projects that pass.
pub proof fn lemma_select_members(
    recs: Seq<Project>,
    topics: Seq<Seq<char>>,
    path: Seq<Option<Seq<char>>>,
    n: int,
)
    requires
        n <= recs.len() <= usize::MAX,
    ensures
        forall|k: int|
            0 <= k < select(recs, topics, path, n).len() ==> {
                let i = #[trigger] select(recs, topics, path, n)[k];
                &&& i < n
                &&& path_holds(recs[i as int], topics, path)
            },
        forall|i: int|
            0 <= i < n && path_holds(recs[i], topics, path) ==> select(recs, topics, path, n).contains(
                i as usize,
            ),
    decreases n,
{
    if n > 0 {
        lemma_select_members(recs, topics, path, n - 1);
        let s = select(recs, topics, path, n - 1);
        assert forall|i: int|
            0 <= i < n && path_holds(recs[i], topics, path) implies select(
            recs,
            topics,
            path,
            n,
        ).contains(i as usize) by {
            if i < n - 1 {
                let k = choose|k: int| 0 <= k < s.len() && s[k] == i as usize;
                assert(select(recs, topics, path, n)[k] == i as usize);
            } else {
                assert(select(recs, topics, path, n).last() == i as usize);
            }
        }
    }
}

/// Keeping, of the indices that pass `path`, those that pass one more edge
/// gives the indices that pass the longer path.
pub proof fn lemma_select_extend(
    recs: Seq<Project>,
    topics: Seq<Seq<char>>,
    path: Seq<Option<Seq<char>>>,
    e: Option<Seq<char>>,
    n: int,
)
    requires
        path.len() < topics.len(),
        n <= recs.len() <= usize::MAX,
    ensures
        select(recs, topics, path, n).filter(edge_pred(recs, topics[path.len() as int], e))
            == select(recs, topics, path.push(e), n),
    decreases n,
{
    let pred = edge_pred(recs, topics[path.len() as int], e);
    reveal(Seq::filter);
    if n > 0 {
        lemma_select_extend(recs, topics, path, e, n - 1);
        let s = select(recs, topics, path, n - 1);
        let p = recs[n - 1];
        let longer = path.push(e);
        assert(path_holds(p, topics, longer) == (path_holds(p, topics, path) && edge_holds(
            p,
            topics[path.len() as int],
            e,
        ))) by {
            if path_holds(p, topics, path) && edge_holds(p, topics[path.len() as int], e) {
                assert forall|d: int| 0 <= d < longer.len() implies #[trigger] edge_holds(
                    p,
                    topics[d],
                    longer[d],
                ) by {
                    if d < path.len() {
                        assert(longer[d] == path[d]);
                    }
                }
            }
            if path_holds(p, topics, longer) {
                assert forall|d: int| 0 <= d < path.len() implies #[trigger] edge_holds(
                    p,
                    topics[d],
                    path[d],
                ) by {
                    assert(longer[d] == path[d]);
                    assert(edge_holds(p, topics[d], longer[d]));
                }
                assert(edge_holds(p, topics[path.len() as int], longer[path.len() as int]));
            }
        }
        if path_holds(p, topics, path) {
            assert(s.push((n - 1) as usize).drop_last() =~= s);
        }
    }
}

/// Paths whose edges are pairwise alike select the same indices.
pub proof fn lemma_select_same_path(
    recs: Seq<Project>,
    topics: Seq<Seq<char>>,
    p: Seq<Option<Seq<char>>>,
    q: Seq<Option<Seq<char>>>,
    n: int,
)
    requires
        same_path(p, q),
    ensures
        select(recs, topics, p, n) == select(recs, topics, q, n),
    decreases n,
{
    if n > 0 {
        lemma_select_same_path(recs, topics, p, q, n - 1);
        let r = recs[n - 1];
        assert(path_holds(r, topics, p) == path_holds(r, topics, q)) by {
            assert forall|d: int| 0 <= d < p.len() implies edge_holds(r, topics[d], p[d])
                == edge_holds(r, topics[d], q[d]) by {
                assert(same_edge(p[d], q[d]));
            }
            if path_holds(r, topics, p) {
                assert forall|d: int| 0 <= d < q.len() implies #[trigger] edge_holds(
                    r,
                    topics[d],
                    q[d],
                ) by {
                    assert(edge_holds(r, topics[d], p[d]));
                }
            }
            if path_holds(r, topics, q) {
                assert forall|d: int| 0 <= d < p.len() implies #[trigger] edge_holds(
                    r,
                    topics[d],
                    p[d],
                ) by {
                    assert(edge_holds(r, topics[d], q[d]));
                }
            }
        }
    }
}

/// The projects selected by the full path of `parameter` are those that meet it.
pub proof fn lemma_select_matching(
    recs: Seq<Project>,
    topics: Seq<Seq<char>>,
    parameter: SearchParameter,
    n: int,
)
    requires
        0 <= n <= recs.len() <= usize::MAX,
    ensures
        at_indices(recs, select(recs, topics, parameter_path(topics, parameter, topics.len() as int), n))
            == recs.take(n).filter(|p: Project| meets(p, topics, parameter)),
    decreases n,
{
    let path = parameter_path(topics, parameter, topics.len() as int);
    let pred = |p: Project| meets(p, topics, parameter);
    reveal(Seq::filter);
    if n > 0 {
        lemma_select_matching(recs, topics, parameter, n - 1);
        let r = recs[n - 1];
        assert(path_holds(r, topics, path) == meets(r, topics, parameter)) by {
            if meets(r, topics, parameter) {
                assert forall|d: int| 0 <= d < path.len() implies #[trigger] edge_holds(
                    r,
                    topics[d],
                    path[d],
                ) by {
                    assert(edge_holds(r, topics[d], parameter.value(topics[d])));
                }
            }
            if path_holds(r, topics, path) {
                assert forall|d: int| 0 <= d < topics.len() implies #[trigger] edge_holds(
                    r,
                    topics[d],
                    parameter.value(topics[d]),
                ) by {
                    assert(edge_holds(r, topics[d], path[d]));
                }
            }
        }
        assert(recs.take(n).drop_last() =~= recs.take(n - 1));
        let s = select(recs, topics, path, n - 1);
        if path_holds(r, topics, path) {
            assert(at_indices(recs, s.push((n - 1) as usize)) =~= at_indices(recs, s).push(r));
        }
    } else {
        assert(recs.take(n) =~= Seq::<Project>::empty());
        assert(at_indices(recs, select(recs, topics, path, n)) =~= Seq::<Project>::empty());
    }
}

/// Filtering with a test that nothing of `s` passes leaves nothing.
pub proof fn lemma_filter_none<A>(s: Seq<A>, pred: spec_fn(A) -> bool)
    requires
        forall|i: int| 0 <= i < s.len() ==> !pred(#[trigger] s[i]),
    ensures
        s.filter(pred) =~= Seq::<A>::empty(),
    decreases s.len(),
{
    reveal(Seq::filter);
    if s.len() > 0 {
        assert(!pred(s[s.len() - 1]));
        lemma_filter_none(s.drop_last(), pred);
    }
}

/// Filtering with a test that all of `s` passes keeps all of it.
pub proof fn lemma_filter_all<A>(s: Seq<A>, pred: spec_fn(A) -> bool)
    requires
        forall|i: int| 0 <= i < s.len() ==> pred(#[trigger] s[i]),
    ensures
        s.filter(pred) =~= s,
    decreases s.len(),
{
    reveal(Seq::filter);
    if s.len() > 0 {
        assert(pred(s[s.len() - 1]));
        lemma_filter_all(s.drop_last(), pred);
        assert(s.drop_last().push(s.last()) =~= s);
    }
}

} // verus!
