//! Named samples and the mapping they denote.
//!
//! A sample's value is carried as the 64 bits of an IEEE 754 double, so that
//! the mapping can be compared and merged exactly; turning the bits back into
//! a number is left to whoever prints or sends them.

use vstd::prelude::*;

verus! {

/// One sample: a metric name and the bits of its value.
#[derive(Debug, Clone, PartialEq, Eq)]
pub struct Metric {
    pub name: String,
    pub value: u64,
}

impl View for Metric {
    type V = (Seq<char>, u64);

    open spec fn view(&self) -> (Seq<char>, u64) {
        (self.name@, self.value)
    }
}

/// The samples of a vector, each by its view.
pub open spec fn metrics_view(v: Seq<Metric>) -> Seq<(Seq<char>, u64)> {
    Seq::new(v.len(), |i: int| v[i]@)
}

/// No name occurs twice in `s`.
pub open spec fn distinct_names(s: Seq<(Seq<char>, u64)>) -> bool {
    forall|i: int, j: int| 0 <= i < j < s.len() ==> s[i].0 != s[j].0
}

/// Some sample of `s` is named `name`.
pub open spec fn has_name(s: Seq<(Seq<char>, u64)>, name: Seq<char>) -> bool {
    exists|i: int| 0 <= i < s.len() && #[trigger] s[i].0 == name
}

/// The place of a sample named `name` in `s`, where there is one.
pub open spec fn index_of_name(s: Seq<(Seq<char>, u64)>, name: Seq<char>) -> int {
    choose|i: int| 0 <= i < s.len() && #[trigger] s[i].0 == name
}

/// The mapping that a sequence of samples denotes. Where a name occurs more
/// than once the last sample counts.
pub open spec fn to_map(s: Seq<(Seq<char>, u64)>) -> Map<Seq<char>, u64>
    decreases s.len(),
{
    if s.len() == 0 {
        Map::empty()
    } else {
        to_map(s.drop_last()).insert(s.last().0, s.last().1)
    }
}

/// `s` with the sample `(name, value)` put in: in place of the sample of that
/// name where there is one, at the end otherwise.
pub open spec fn upsert(s: Seq<(Seq<char>, u64)>, name: Seq<char>, value: u64) -> Seq<
    (Seq<char>, u64),
> {
    if has_name(s, name) {
        s.update(index_of_name(s, name), (name, value))
    } else {
        s.push((name, value))
    }
}

/// `s` with every sample of `t` put in, first to last.
pub open spec fn upsert_all(s: Seq<(Seq<char>, u64)>, t: Seq<(Seq<char>, u64)>) -> Seq<
    (Seq<char>, u64),
>
    decreases t.len(),
{
    if t.len() == 0 {
        s
    } else {
        upsert(upsert_all(s, t.drop_last()), t.last().0, t.last().1)
    }
}

/// What a mapping holds under `name`, if anything.
pub open spec fn lookup(m: Map<Seq<char>, u64>, name: Seq<char>) -> Option<u64> {
    if m.contains_key(name) {
        Some(m[name])
    } else {
        None
    }
}

/// The mapping of a sequence of samples holds exactly the names of the
/// sequence; where no name occurs twice it holds each sample's value under
/// its name and has as many entries as the sequence has samples.
pub proof fn lemma_to_map(s: Seq<(Seq<char>, u64)>)
    ensures
        to_map(s).dom().finite(),
        forall|name: Seq<char>| #[trigger] to_map(s).contains_key(name) <==> has_name(s, name),
        distinct_names(s) ==> to_map(s).len() == s.len(),
        distinct_names(s) ==> forall|i: int|
            0 <= i < s.len() ==> to_map(s)[(#[trigger] s[i]).0] == s[i].1,
    decreases s.len(),
{
    if s.len() > 0 {
        let head = s.drop_last();
        let last = s.last();
        lemma_to_map(head);
        assert forall|name: Seq<char>| #[trigger]
            to_map(s).contains_key(name) <==> has_name(s, name) by {
            if has_name(head, name) {
                let i = index_of_name(head, name);
                assert(s[i].0 == name);
            }
            if has_name(s, name) {
                let i = index_of_name(s, name);
                if i < s.len() - 1 {
                    assert(head[i].0 == name);
                }
            }
            if name == last.0 {
                assert(s[s.len() - 1].0 == name);
            }
        }
        if distinct_names(s) {
            assert(distinct_names(head)) by {
                assert forall|i: int, j: int| 0 <= i < j < head.len() implies head[i].0
                    != head[j].0 by {
                    assert(s[i].0 != s[j].0);
                }
            }
            assert(!has_name(head, last.0)) by {
                if has_name(head, last.0) {
                    let i = index_of_name(head, last.0);
                    assert(s[i].0 != s[s.len() - 1].0);
                }
            }
            assert forall|i: int| 0 <= i < s.len() implies to_map(s)[(#[trigger] s[i]).0]
                == s[i].1 by {
                if i < s.len() - 1 {
                    assert(head[i] == s[i]);
                    assert(s[i].0 != s[s.len() - 1].0);
                }
            }
        }
    }
}

/// Putting a sample into a sequence without repeated names leaves it without
/// repeated names, and its mapping is the old one with that sample inserted.
pub proof fn lemma_upsert(s: Seq<(Seq<char>, u64)>, name: Seq<char>, value: u64)
    requires
        distinct_names(s),
    ensures
        distinct_names(upsert(s, name, value)),
        to_map(upsert(s, name, value)) == to_map(s).insert(name, value),
{
    let t = upsert(s, name, value);
    if has_name(s, name) {
        assert forall|i: int, j: int| 0 <= i < j < t.len() implies t[i].0 != t[j].0 by {
            assert(s[i].0 != s[j].0);
        }
    } else {
        assert forall|i: int, j: int| 0 <= i < j < t.len() implies t[i].0 != t[j].0 by {
            if j < s.len() {
                assert(s[i].0 != s[j].0);
            } else {
                assert(s[i].0 != name);
            }
        }
    }
    lemma_to_map(s);
    lemma_to_map(t);
    assert forall|key: Seq<char>|
        to_map(t).contains_key(key) <==> to_map(s).insert(name, value).contains_key(key) by {
        if has_name(t, key) {
            let i = index_of_name(t, key);
            if key != name {
                assert(s[i].0 == key);
            }
        }
        if has_name(s, key) {
            let i = index_of_name(s, key);
            assert(t[i].0 == key);
        }
        if key == name {
            if has_name(s, name) {
                assert(t[index_of_name(s, name)].0 == name);
            } else {
                assert(t[t.len() - 1].0 == name);
            }
        }
    }
    assert forall|key: Seq<char>| to_map(t).contains_key(key) implies to_map(t)[key] == to_map(
        s,
    ).insert(name, value)[key] by {
        let i = index_of_name(t, key);
        assert(to_map(t)[t[i].0] == t[i].1);
        if key != name {
            assert(s[i].0 == key);
            assert(to_map(s)[s[i].0] == s[i].1);
        } else if has_name(s, name) {
            let k = index_of_name(s, name);
            assert(t[k].0 == name);
            if i != k {
                if i < k {
                    assert(t[i].0 != t[k].0);
                } else {
                    assert(t[k].0 != t[i].0);
                }
            }
        } else {
            if i < s.len() {
                assert(s[i].0 == name);
            }
        }
    }
    assert(to_map(t) =~= to_map(s).insert(name, value));
}

/// Putting the samples of `t` into `s` one by one gives the mapping of `s`
/// overlaid with the mapping of `t`.
pub proof fn lemma_upsert_all(s: Seq<(Seq<char>, u64)>, t: Seq<(Seq<char>, u64)>)
    requires
        distinct_names(s),
    ensures
        distinct_names(upsert_all(s, t)),
        to_map(upsert_all(s, t)) == to_map(s).union_prefer_right(to_map(t)),
    decreases t.len(),
{
    if t.len() == 0 {
        assert(to_map(s) =~= to_map(s).union_prefer_right(to_map(t)));
    } else {
        let head = t.drop_last();
        lemma_upsert_all(s, head);
        lemma_upsert(upsert_all(s, head), t.last().0, t.last().1);
        assert(to_map(s).union_prefer_right(to_map(head)).insert(t.last().0, t.last().1)
            =~= to_map(s).union_prefer_right(to_map(t)));
    }
}

/// A mapping from metric names to values: what one domain sampled, or the
/// union of what several did. No name is held twice.
#[derive(Debug)]
pub struct Values {
    entries: Vec<Metric>,
}

impl View for Values {
    type V = Map<Seq<char>, u64>;

    open spec fn view(&self) -> Map<Seq<char>, u64> {
        to_map(self.entries())
    }
}

impl Values {
    #[verifier::type_invariant]
    spec fn names_are_distinct(&self) -> bool {
        distinct_names(metrics_view(self.entries@))
    }

    /// The samples held, oldest name first.
    pub closed spec fn entries(&self) -> Seq<(Seq<char>, u64)> {
        metrics_view(self.entries@)
    }

    /// The empty mapping.
    pub fn new() -> (values: Values)
        ensures
            values.entries() == Seq::<(Seq<char>, u64)>::empty(),
            values@ == Map::<Seq<char>, u64>::empty(),
    {
        let values = Values { entries: Vec::new() };
        assert(values.entries() =~= Seq::empty());
        values
    }

    /// How many names are held.
    pub fn len(&self) -> (n: usize)
        ensures
            n == self.entries().len(),
            n == self@.len(),
            self@.dom().finite(),
    {
        proof {
            use_type_invariant(self);
            lemma_to_map(self.entries());
        }
        self.entries.len()
    }

    /// Whether no name is held.
    pub fn is_empty(&self) -> (empty: bool)
        ensures
            empty <==> self@ == Map::<Seq<char>, u64>::empty(),
    {
        proof {
            use_type_invariant(self);
            lemma_to_map(self.entries());
            if self.entries().len() == 0 {
                assert(self@ =~= Map::empty());
            } else {
                assert(has_name(self.entries(), self.entries()[0].0));
            }
        }
        self.entries.len() == 0
    }

    /// Where `name` is held, if it is.
    fn position(&self, name: &String) -> (found: Option<usize>)
        ensures
            match found {
                Some(i) => i < self.entries().len() && self.entries()[i as int].0 == name@,
                None => !has_name(self.entries(), name@),
            },
    {
        let mut i: usize = 0;
        while i < self.entries.len()
            invariant
                i <= self.entries.len(),
                forall|j: int| 0 <= j < i ==> self.entries()[j].0 != name@,
            decreases self.entries.len() - i,
        {
            if self.entries[i].name == *name {
                return Some(i);
            }
            i += 1;
        }
        None
    }

    /// The value held under `name`.
    pub fn get(&self, name: &str) -> (value: Option<u64>)
        ensures
            value == lookup(self@, name@),
    {
        let key = name.to_owned();
        proof {
            use_type_invariant(self);
            lemma_to_map(self.entries());
        }
        match self.position(&key) {
            Some(i) => {
                assert(has_name(self.entries(), self.entries()[i as int].0));
                Some(self.entries[i].value)
            },
            None => None,
        }
    }

    /// Whether a value is held under `name`.
    pub fn contains_key(&self, name: &str) -> (held: bool)
        ensures
            held == self@.contains_key(name@),
    {
        self.get(name).is_some()
    }

    /// Moves the samples out and leaves the mapping empty.
    fn take_entries(&mut self) -> (entries: Vec<Metric>)
        ensures
            metrics_view(entries@) == old(self).entries(),
            distinct_names(old(self).entries()),
            final(self).entries() == Seq::<(Seq<char>, u64)>::empty(),
    {
        proof {
            use_type_invariant(&*self);
        }
        let mut fresh = Values::new();
        core::mem::swap(self, &mut fresh);
        fresh.entries
    }

    /// Puts `value` under `name` and returns what was held there before. A
    /// name already held keeps its place; a new one goes to the end.
    pub fn insert(&mut self, name: String, value: u64) -> (previous: Option<u64>)
        ensures
            final(self).entries() == upsert(old(self).entries(), name@, value),
            final(self)@ == old(self)@.insert(name@, value),
            previous == lookup(old(self)@, name@),
    {
        let ghost before = self.entries();
        let found = self.position(&name);
        let mut entries = self.take_entries();
        proof {
            lemma_to_map(before);
            lemma_upsert(before, name@, value);
        }
        let previous = match found {
            Some(i) => {
                let previous = entries[i].value;
                proof {
                    let k = index_of_name(before, name@);
                    assert(before[i as int].0 == name@);
                    if k < i {
                        assert(before[k].0 != before[i as int].0);
                    } else if k > i {
                        assert(before[i as int].0 != before[k].0);
                    }
                }
                entries.set(i, Metric { name, value });
                assert(metrics_view(entries@) =~= before.update(i as int, (name@, value)));
                Some(previous)
            },
            None => {
                entries.push(Metric { name, value });
                assert(metrics_view(entries@) =~= before.push((name@, value)));
                None
            },
        };
        self.entries = entries;
        previous
    }

    /// Puts a copy of every sample of `other` into this mapping. Where both
    /// hold a name, the value of `other` replaces the one held.
    pub fn extend_from(&mut self, other: &Values)
        ensures
            final(self).entries() == upsert_all(old(self).entries(), other.entries()),
            final(self)@ == old(self)@.union_prefer_right(other@),
    {
        proof {
            use_type_invariant(&*self);
            lemma_upsert_all(self.entries(), other.entries());
        }
        let ghost start = self.entries();
        let ghost incoming = other.entries();
        let mut i: usize = 0;
        while i < other.entries.len()
            invariant
                i <= other.entries.len(),
                incoming == other.entries(),
                self.entries() == upsert_all(start, incoming.take(i as int)),
            decreases other.entries.len() - i,
        {
            let name = other.entries[i].name.clone();
            let value = other.entries[i].value;
            proof {
                let next = incoming.take(i + 1);
                assert(next.drop_last() =~= incoming.take(i as int));
                assert(next.last() == (name@, value));
            }
            self.insert(name, value);
            i += 1;
        }
        assert(incoming.take(i as int) =~= incoming);
    }

    /// Puts every sample of `other` into this mapping. Where both hold a
    /// name, the value of `other` replaces the one held.
    pub fn extend(&mut self, other: Values)
        ensures
            final(self).entries() == upsert_all(old(self).entries(), other.entries()),
            final(self)@ == old(self)@.union_prefer_right(other@),
    {
        self.extend_from(&other);
    }

    /// Gives up the samples held, oldest name first.
    pub fn into_entries(self) -> (entries: Vec<Metric>)
        ensures
            metrics_view(entries@) == self.entries(),
            distinct_names(self.entries()),
            self@.dom().finite(),
            self@.len() == entries@.len(),
    {
        proof {
            use_type_invariant(&self);
            lemma_to_map(self.entries());
        }
        self.entries
    }
}

} // verus!
