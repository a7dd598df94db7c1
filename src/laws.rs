use vstd::prelude::*;

use crate::facets::{comes_before, edge_holds, lemma_filter_all, matching, meets, meets_before, offered, options_of, same_edge};
use crate::parameter::SearchParameter;
use crate::project::{value_of, Project};
use crate::tree::SearchTree;

verus! {

/// A search that sets no topic returns the whole catalogue, in its order.
pub proof fn law_open_search_returns_all(tree: SearchTree, parameter: SearchParameter)
    requires
        forall|t: Seq<char>| parameter.value(t).is_none(),
    ensures
        matching(tree.records(), tree.facets(), parameter) == tree.records(),
{
    let recs = tree.records();
    let ts = tree.facets();
    let pred = |p: Project| meets(p, ts, parameter);
    assert forall|i: int| 0 <= i < recs.len() implies pred(#[trigger] recs[i]) by {
        assert forall|d: int| 0 <= d < ts.len() implies #[trigger] edge_holds(recs[i], ts[d], parameter.value(ts[d])) by {
            assert(parameter.value(ts[d]).is_none());
        }
    }
    lemma_filter_all(recs, pred);
}

/// Setting more topics can only narrow a search: where `wide` sets a topic,
/// `narrow` sets it to the same value, and every project that the search
/// with `narrow` returns is returned by the search with `wide`.
pub proof fn law_narrowing(tree: SearchTree, wide: SearchParameter, narrow: SearchParameter)
    requires
        forall|t: Seq<char>| #[trigger] wide.value(t).is_some() ==> narrow.value(t) == wide.value(t),
    ensures
        forall|p: Project|
            matching(tree.records(), tree.facets(), narrow).contains(p) ==> matching(
                tree.records(),
                tree.facets(),
                wide,
            ).contains(p),
{
    let recs = tree.records();
    let ts = tree.facets();
    let wide_pred = |p: Project| meets(p, ts, wide);
    let narrow_pred = |p: Project| meets(p, ts, narrow);
    assert forall|p: Project| matching(recs, ts, narrow).contains(p) implies matching(recs, ts, wide).contains(p) by {
        let s = recs.filter(narrow_pred);
        let k = choose|k: int| 0 <= k < s.len() && s[k] == p;
        recs.lemma_filter_pred(narrow_pred, k);
        recs.lemma_filter_contains_rev(narrow_pred, p);
        let i = choose|i: int| 0 <= i < recs.len() && recs[i] == p;
        assert forall|d: int| 0 <= d < ts.len() implies #[trigger] edge_holds(p, ts[d], wide.value(ts[d])) by {
            assert(edge_holds(p, ts[d], narrow.value(ts[d])));
            if wide.value(ts[d]).is_some() {
                assert(narrow.value(ts[d]) == wide.value(ts[d]));
            }
        }
        recs.lemma_filter_contains(wide_pred, i);
    }
}

/// Searching again with the same parameter among the projects that a search
/// returned gives those projects again.
pub proof fn law_search_idempotent(tree: SearchTree, parameter: SearchParameter)
    ensures
        matching(matching(tree.records(), tree.facets(), parameter), tree.facets(), parameter)
            == matching(tree.records(), tree.facets(), parameter),
{
    let recs = tree.records();
    let ts = tree.facets();
    let pred = |p: Project| meets(p, ts, parameter);
    let once = recs.filter(pred);
    assert forall|k: int| 0 <= k < once.len() implies pred(#[trigger] once[k]) by {
        recs.lemma_filter_pred(pred, k);
    }
    lemma_filter_all(once, pred);
}

/// Values are matched without regard to ASCII case: two parameters whose
/// values are equal but for case return the same projects.
pub proof fn law_case_insensitive_search(tree: SearchTree, first: SearchParameter, second: SearchParameter)
    requires
        forall|t: Seq<char>| #[trigger] same_edge(first.value(t), second.value(t)),
    ensures
        matching(tree.records(), tree.facets(), first) == matching(tree.records(), tree.facets(), second),
{
    let ts = tree.facets();
    let first_pred = |p: Project| meets(p, ts, first);
    let second_pred = |p: Project| meets(p, ts, second);
    assert forall|p: Project| #[trigger] first_pred(p) == second_pred(p) by {
        assert forall|d: int| 0 <= d < ts.len() implies #[trigger] edge_holds(p, ts[d], first.value(ts[d]))
            == edge_holds(p, ts[d], second.value(ts[d])) by {
            assert(same_edge(first.value(ts[d]), second.value(ts[d])));
        }
        if first_pred(p) {
            assert forall|d: int| 0 <= d < ts.len() implies #[trigger] edge_holds(p, ts[d], second.value(ts[d])) by {
                assert(edge_holds(p, ts[d], first.value(ts[d])));
            }
        }
        if second_pred(p) {
            assert forall|d: int| 0 <= d < ts.len() implies #[trigger] edge_holds(p, ts[d], first.value(ts[d])) by {
                assert(edge_holds(p, ts[d], second.value(ts[d])));
            }
        }
    }
    assert(first_pred =~= second_pred);
}

/// A project without a value for a topic of the index is never returned by
/// a search that sets that topic.
pub proof fn law_missing_topic_excluded(tree: SearchTree, parameter: SearchParameter, topic: Seq<char>, p: Project)
    requires
        tree.facets().contains(topic),
        parameter.value(topic).is_some(),
        value_of(p, topic).is_none(),
    ensures
        !matching(tree.records(), tree.facets(), parameter).contains(p),
{
    let recs = tree.records();
    let ts = tree.facets();
    let pred = |q: Project| meets(q, ts, parameter);
    if recs.filter(pred).contains(p) {
        let k = choose|k: int| 0 <= k < recs.filter(pred).len() && recs.filter(pred)[k] == p;
        recs.lemma_filter_pred(pred, k);
        let d = choose|d: int| 0 <= d < ts.len() && ts[d] == topic;
        assert(edge_holds(p, ts[d], parameter.value(ts[d])));
    }
}

/// The values offered for `target` depend only on what the parameter sets
/// on the topics before `target` in the topic order: two parameters that
/// agree there are offered the same values, whatever they set on `target`
/// or on later topics.
pub proof fn law_options_ignore_later_topics(
    tree: SearchTree,
    first: SearchParameter,
    second: SearchParameter,
    target: Seq<char>,
    r: Seq<Seq<char>>,
)
    requires
        forall|d: int|
            0 <= d < tree.facets().len() && comes_before(tree.facets(), target, d) ==> first.value(
                #[trigger] tree.facets()[d],
            ) == second.value(tree.facets()[d]),
    ensures
        options_of(tree.records(), tree.facets(), first, target, r) == options_of(
            tree.records(),
            tree.facets(),
            second,
            target,
            r,
        ),
{
    let recs = tree.records();
    let ts = tree.facets();
    assert forall|p: Project| #[trigger] meets_before(p, ts, first, target) == meets_before(p, ts, second, target) by {
        if meets_before(p, ts, first, target) {
            assert forall|d: int| 0 <= d < ts.len() && comes_before(ts, target, d) implies #[trigger] edge_holds(
                p,
                ts[d],
                second.value(ts[d]),
            ) by {
                assert(edge_holds(p, ts[d], first.value(ts[d])));
            }
        }
        if meets_before(p, ts, second, target) {
            assert forall|d: int| 0 <= d < ts.len() && comes_before(ts, target, d) implies #[trigger] edge_holds(
                p,
                ts[d],
                first.value(ts[d]),
            ) by {
                assert(edge_holds(p, ts[d], second.value(ts[d])));
            }
        }
    }
    assert forall|v: Seq<char>| #[trigger] offered(recs, ts, first, target, v) == offered(recs, ts, second, target, v) by {
        if offered(recs, ts, first, target, v) {
            let i = choose|i: int| 0 <= i < recs.len() && meets_before(recs[i], ts, first, target)
                && value_of(recs[i], target) == Some(v);
            assert(meets_before(recs[i], ts, second, target));
        }
        if offered(recs, ts, second, target, v) {
            let i = choose|i: int| 0 <= i < recs.len() && meets_before(recs[i], ts, second, target)
                && value_of(recs[i], target) == Some(v);
            assert(meets_before(recs[i], ts, first, target));
        }
    }
}

} // verus!
