use vstd::prelude::*;

use crate::error::Error;
use crate::facets::{matching, names};
use crate::parameter::SearchParameter;
use crate::project::Projects;
use crate::tree::{derefs, SearchTree};

verus! {

/// The state of the interactive filter: the index and the values chosen so far.
pub struct Menu {
    parameters: SearchParameter,
    tree: SearchTree,
}

/// The sources of `projects`, in order.
pub open spec fn sources_of(projects: Seq<crate::project::Project>) -> Seq<Seq<char>> {
    projects.map_values(|p: crate::project::Project| p.source@)
}

impl Menu {
    /// The values chosen so far.
    pub closed spec fn current(self) -> SearchParameter {
        self.parameters
    }

    /// The index.
    pub closed spec fn index_of(self) -> SearchTree {
        self.tree
    }

    /// Builds the index over `projects` and starts with every topic of its
    /// topic order left open.
    pub fn new(projects: Projects) -> (r: Result<Self, Error>)
        ensures
            r is Err <==> (projects.projects@.len() > 0 && forall|i: int|
                0 <= i < projects.projects@.len() ==> (#[trigger] projects.projects@[i]).topics@.len() == 0),
            r is Ok ==> r->Ok_0.index_of().records() == projects.projects@,
            r is Ok ==> names(r->Ok_0.current().topics@.map_values(|e: (String, Option<String>)| e.0))
                == r->Ok_0.index_of().facets(),
            r is Ok ==> forall|t: Seq<char>| r->Ok_0.current().value(t).is_none(),
    {
        let tree = SearchTree::new(projects.projects)?;
        let topics = tree.get_topics();
        let mut list: Vec<String> = Vec::with_capacity(topics.len());
        let mut i: usize = 0;
        while i < topics.len()
            invariant
                i <= topics@.len(),
                names(topics@) == tree.facets(),
                list@.len() == i,
                forall|j: int| 0 <= j < i ==> (#[trigger] list@[j])@ == topics@[j]@,
            decreases topics@.len() - i,
        {
            list.push(topics[i].clone());
            i = i + 1;
        }
        let parameters = SearchParameter::new(list);
        let menu = Self { parameters, tree };
        assert(names(menu.parameters.topics@.map_values(|e: (String, Option<String>)| e.0)) =~= menu.tree.facets());
        Ok(menu)
    }

    /// The values chosen so far.
    pub fn parameters(&self) -> (r: &SearchParameter)
        ensures
            *r == self.current(),
    {
        &self.parameters
    }

    /// The index.
    pub fn tree(&self) -> (r: &SearchTree)
        ensures
            *r == self.index_of(),
    {
        &self.tree
    }

    /// Chooses `value` for `topic`, or leaves `topic` open again where `value` is `None`.
    pub fn set_parameter(&mut self, topic: String, value: Option<String>)
        ensures
            final(self).index_of() == old(self).index_of(),
            final(self).current().value(topic@) == crate::parameter::opt_view(value),
            forall|t: Seq<char>| t != topic@ ==> final(self).current().value(t) == old(self).current().value(t),
    {
        self.parameters.set(topic, value);
    }

    /// The sources of all projects, in catalogue order.
    pub fn sources(&self) -> (r: Vec<String>)
        ensures
            names(r@) == sources_of(self.index_of().records()),
    {
        let projects = self.tree.get_projects();
        let mut r: Vec<String> = Vec::with_capacity(projects.len());
        let mut i: usize = 0;
        while i < projects.len()
            invariant
                i <= projects@.len(),
                r@.len() == i,
                forall|j: int| 0 <= j < i ==> (#[trigger] r@[j])@ == projects@[j].source@,
            decreases projects@.len() - i,
        {
            r.push(projects[i].source.clone());
            i = i + 1;
        }
        assert(names(r@) =~= sources_of(self.tree.records()));
        r
    }

    /// The sources of the projects that meet the values chosen so far, in catalogue order.
    pub fn found_sources(&self) -> (r: Vec<String>)
        ensures
            names(r@) == sources_of(matching(self.index_of().records(), self.index_of().facets(), self.current())),
    {
        let found = self.tree.search(&self.parameters);
        let mut r: Vec<String> = Vec::with_capacity(found.len());
        let mut i: usize = 0;
        while i < found.len()
            invariant
                i <= found@.len(),
                r@.len() == i,
                forall|j: int| 0 <= j < i ==> (#[trigger] r@[j])@ == found@[j].source@,
            decreases found@.len() - i,
        {
            r.push(found[i].source.clone());
            i = i + 1;
        }
        assert(names(r@) =~= sources_of(derefs(found@)));
        r
    }

    /// The values that `topic` can take next under the values chosen so far
    /// (see `SearchTree::retrieve_topic_options`).
    pub fn topic_options(&self, topic: &String) -> (r: Vec<String>)
        ensures
            crate::facets::options_of(
                self.index_of().records(),
                self.index_of().facets(),
                self.current(),
                topic@,
                names(r@),
            ),
    {
        self.tree.retrieve_topic_options(topic, &self.parameters)
    }
}

} // verus!
