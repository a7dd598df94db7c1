use vstd::prelude::*;

verus! {

/// A catalogue entry: a unique `source` and its topic values.
///
/// `topics` maps a topic name to the project's value for that topic. A name
/// that is absent means the project does not take part in that topic; if a
/// name were listed twice, its first entry would count.
pub struct Project {
    pub source: String,
    pub topics: Vec<(String, String)>,
}

/// All projects of a catalogue.
pub struct Projects {
    pub projects: Vec<Project>,
}

/// The code of `c` once an ASCII upper-case letter is mapped to lower case.
pub open spec fn ascii_lower(c: char) -> u32 {
    let n = c as u32;
    if 65 <= n && n <= 90 {
        (n + 32) as u32
    } else {
        n
    }
}

/// `a` and `b` are equal when ASCII letters are compared without regard to case.
pub open spec fn same_ignoring_case(a: Seq<char>, b: Seq<char>) -> bool {
    &&& a.len() == b.len()
    &&& forall|i: int| 0 <= i < a.len() ==> ascii_lower(#[trigger] a[i]) == ascii_lower(b[i])
}

/// Relies on `str::eq_ignore_ascii_case`: true exactly when both strings are
/// equal after mapping ASCII upper-case letters to lower case.
#[verifier::external_body]
pub(crate) fn eq_ignore_case(a: &String, b: &String) -> (r: bool)
    ensures
        r == same_ignoring_case(a@, b@),
{
    a.eq_ignore_ascii_case(b)
}

/// `i` is the first entry of `entries` named `topic`.
pub open spec fn first_entry(entries: Seq<(String, String)>, topic: Seq<char>, i: int) -> bool {
    &&& 0 <= i < entries.len()
    &&& entries[i].0@ == topic
    &&& forall|j: int| 0 <= j < i ==> entries[j].0@ != topic
}

/// The value of `topic` in `entries`, if the name occurs.
pub open spec fn entry_value(entries: Seq<(String, String)>, topic: Seq<char>) -> Option<Seq<char>> {
    if exists|i: int| first_entry(entries, topic, i) {
        let i = choose|i: int| first_entry(entries, topic, i);
        Some(entries[i].1@)
    } else {
        None
    }
}

/// The value that `p` has for `topic`, if any.
pub open spec fn value_of(p: Project, topic: Seq<char>) -> Option<Seq<char>> {
    entry_value(p.topics@, topic)
}

/// `p` names `topic` among its entries.
pub open spec fn has_topic(p: Project, topic: Seq<char>) -> bool {
    exists|k: int| 0 <= k < p.topics@.len() && (#[trigger] p.topics@[k]).0@ == topic
}

impl Project {
    /// The value of `topic` for this project.
    pub fn get(&self, topic: &String) -> (r: Option<&String>)
        ensures
            r.is_some() == value_of(*self, topic@).is_some(),
            r.is_some() ==> value_of(*self, topic@) == Some(r.unwrap()@),
            r.is_none() ==> !has_topic(*self, topic@),
    {
        let mut i: usize = 0;
        while i < self.topics.len()
            invariant
                i <= self.topics@.len(),
                forall|j: int| 0 <= j < i ==> self.topics@[j].0@ != topic@,
            decreases self.topics@.len() - i,
        {
            if self.topics[i].0 == *topic {
                assert(first_entry(self.topics@, topic@, i as int));
                return Some(&self.topics[i].1);
            }
            i = i + 1;
        }
        None
    }
}

} // verus!
