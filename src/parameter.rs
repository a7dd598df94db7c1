use vstd::prelude::*;

verus! {

/// A partial assignment of topics: each entry names a topic and either a
/// value to filter on or `None` for "left open". A topic that has no entry
/// is left open too; if a name were listed twice, its first entry would count.
pub struct SearchParameter {
    pub topics: Vec<(String, Option<String>)>,
}

/// `i` is the first entry of `entries` named `topic`.
pub open spec fn first_setting(entries: Seq<(String, Option<String>)>, topic: Seq<char>, i: int) -> bool {
    &&& 0 <= i < entries.len()
    &&& entries[i].0@ == topic
    &&& forall|j: int| 0 <= j < i ==> entries[j].0@ != topic
}

/// The view of an optional string.
pub open spec fn opt_view(o: Option<String>) -> Option<Seq<char>> {
    match o {
        Some(s) => Some(s@),
        None => None,
    }
}

/// Where `a` extends `b` by entries not named `t`, and names agree on the
/// common part, the first entry named `t` is the same in both.
proof fn lemma_same_names(a: Seq<(String, Option<String>)>, b: Seq<(String, Option<String>)>, t: Seq<char>)
    requires
        a.len() >= b.len(),
        forall|j: int| 0 <= j < b.len() ==> #[trigger] a[j].0@ == b[j].0@,
        forall|j: int| b.len() <= j < a.len() ==> (#[trigger] a[j]).0@ != t,
    ensures
        forall|k: int| first_setting(a, t, k) == first_setting(b, t, k),
{
    assert forall|k: int| first_setting(a, t, k) == first_setting(b, t, k) by {
        if 0 <= k < b.len() {
            assert forall|j: int| 0 <= j < k implies (a[j].0@ != t) == (b[j].0@ != t) by {
                assert(a[j].0@ == b[j].0@);
            }
        }
    }
}

impl SearchParameter {
    /// The value that this assignment gives `topic`, or `None` where it leaves it open.
    pub open spec fn value(self, topic: Seq<char>) -> Option<Seq<char>> {
        if exists|i: int| first_setting(self.topics@, topic, i) {
            let i = choose|i: int| first_setting(self.topics@, topic, i);
            opt_view(self.topics@[i].1)
        } else {
            None
        }
    }

    /// No entry sets a value.
    pub open spec fn spec_is_empty(self) -> bool {
        forall|j: int| 0 <= j < self.topics@.len() ==> (#[trigger] self.topics@[j]).1.is_none()
    }

    /// An assignment with one open entry per topic of `topic_list`, in that order.
    pub fn new(topic_list: Vec<String>) -> (r: Self)
        ensures
            r.topics@.len() == topic_list@.len(),
            forall|j: int| 0 <= j < topic_list@.len() ==> #[trigger] r.topics@[j].0 == topic_list@[j],
            r.spec_is_empty(),
            forall|t: Seq<char>| r.value(t).is_none(),
    {
        let mut topics: Vec<(String, Option<String>)> = Vec::with_capacity(topic_list.len());
        let mut i: usize = 0;
        while i < topic_list.len()
            invariant
                i <= topic_list@.len(),
                topics@.len() == i,
                forall|j: int| 0 <= j < i ==> #[trigger] topics@[j].0 == topic_list@[j],
                forall|j: int| 0 <= j < i ==> (#[trigger] topics@[j]).1.is_none(),
            decreases topic_list@.len() - i,
        {
            topics.push((topic_list[i].clone(), None));
            i = i + 1;
        }
        let r = Self { topics };
        assert forall|t: Seq<char>| r.value(t).is_none() by {
            if exists|i: int| first_setting(r.topics@, t, i) {
                let i = choose|i: int| first_setting(r.topics@, t, i);
                assert(r.topics@[i].1.is_none());
            }
        }
        r
    }

    /// Whether no entry sets a value.
    pub fn is_empty(&self) -> (r: bool)
        ensures
            r == self.spec_is_empty(),
            r ==> forall|t: Seq<char>| self.value(t).is_none(),
    {
        let mut i: usize = 0;
        while i < self.topics.len()
            invariant
                i <= self.topics@.len(),
                forall|j: int| 0 <= j < i ==> (#[trigger] self.topics@[j]).1.is_none(),
            decreases self.topics@.len() - i,
        {
            if self.topics[i].1.is_some() {
                return false;
            }
            i = i + 1;
        }
        assert forall|t: Seq<char>| self.value(t).is_none() by {
            if exists|i: int| first_setting(self.topics@, t, i) {
                let i = choose|i: int| first_setting(self.topics@, t, i);
                assert(self.topics@[i].1.is_none());
            }
        }
        true
    }

    /// The value given to `topic`, if one is.
    pub fn get(&self, topic: &String) -> (r: Option<&String>)
        ensures
            r.is_some() == self.value(topic@).is_some(),
            r.is_some() ==> self.value(topic@) == Some(r.unwrap()@),
    {
        let mut i: usize = 0;
        while i < self.topics.len()
            invariant
                i <= self.topics@.len(),
                forall|j: int| 0 <= j < i ==> self.topics@[j].0@ != topic@,
            decreases self.topics@.len() - i,
        {
            if self.topics[i].0 == *topic {
                assert(first_setting(self.topics@, topic@, i as int));
                return self.topics[i].1.as_ref();
            }
            i = i + 1;
        }
        None
    }

    /// Gives `topic` the value `value` (`None` clears it); every other topic keeps its value.
    pub fn set(&mut self, topic: String, value: Option<String>)
        ensures
            final(self).value(topic@) == opt_view(value),
            forall|t: Seq<char>| t != topic@ ==> final(self).value(t) == old(self).value(t),
    {
        let ghost before = self.topics@;
        let mut i: usize = 0;
        while i < self.topics.len()
            invariant
                self.topics@ == before,
                old(self).topics@ == before,
                i <= before.len(),
                forall|j: int| 0 <= j < i ==> before[j].0@ != topic@,
            decreases before.len() - i,
        {
            if self.topics[i].0 == topic {
                self.topics.set(i, (topic, value));
                let ghost after = self.topics@;
                assert(first_setting(after, topic@, i as int));
                assert(forall|j: int| 0 <= j < after.len() ==> #[trigger] after[j].0@ == before[j].0@);
                assert(forall|j: int| 0 <= j < after.len() && j != i ==> #[trigger] after[j] == before[j]);
                assert forall|t: Seq<char>| t != topic@ implies
                    #[trigger] self.value(t) == old(self).value(t) by {
                    lemma_same_names(after, before, t);
                    if exists|k: int| first_setting(before, t, k) {
                        let ka = choose|k: int| first_setting(after, t, k);
                        let kb = choose|k: int| first_setting(before, t, k);
                        assert(ka == kb) by {
                            if ka < kb { assert(before[ka].0@ == t); }
                            if kb < ka { assert(after[kb].0@ == t); }
                        }
                        assert(ka != i);
                        assert(after[ka] == before[ka]);
                    }
                }
                return;
            }
            i = i + 1;
        }
        let ghost n = before.len();
        let ghost name = topic@;
        self.topics.push((topic, value));
        let ghost after = self.topics@;
        assert(first_setting(after, name, n as int));
        assert(forall|j: int| 0 <= j < before.len() ==> #[trigger] after[j] == before[j]);
        assert forall|t: Seq<char>| t != name implies #[trigger] self.value(t) == old(self).value(t) by {
            lemma_same_names(after, before, t);
        }
    }
}

} // verus!
